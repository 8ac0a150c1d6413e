//! The directory subsystem: an entry iterator, a free-slot finder, and the
//! directory API (lookup, create, remove, rename) over an in-memory model
//! of the volume's directory regions.
//!
//! The cluster allocator, the FAT table and the device I/O layer are
//! external collaborators; the model holds the FAT12/16 fixed root region
//! and each cluster-backed directory as a plain byte vector, and passes
//! cluster numbers as plain integers.
use vstd::prelude::*;
use crate::{Error, FatType};
use crate::codec::{
    DirEntryData, DirFileEntryData, SfnView, LfnView, SlotView, parse_slot, sfn_bytes, lfn_bytes,
    slot_bytes, slot_wf, sfn_first_cluster, ATTR_VOLUME_ID, ATTR_DIRECTORY, ATTR_LFN,
    SLOT_END, SLOT_FREE,
};
use crate::lfn::{
    LongNameBuilder, BuilderView, builder_clear, builder_process, builder_validate, builder_name,
    builder_wf, lfn_checksum, lfn_checksum_spec, num_lfn_entries, lfn_entry_view,
    generate_lfn_entries,
};
use crate::sfn::{ShortNameGenerator, gen_wf, long_pattern, chksum_pattern, long_collision, chksum_collision, bit_set, gen_result, gen_fed_exactly, new_spec, lemma_generate_after_feeding, lemma_bit_zero, space_pad};
use crate::path::{valid_long_name, split_path, split_path_spec};

verus! {

/// The in-memory model of a volume's directory storage: the FAT12/16 fixed
/// root region and one growable byte region per directory cluster chain.
/// Cluster numbers start at 2, as on disk; cluster `c` is `dirs[c - 2]`.
pub struct FileSystem {
    pub fat_type: FatType,
    /// The fixed-size root directory region; it cannot grow.
    pub root: Vec<u8>,
    /// Cluster-chain-backed directory contents, indexed by `cluster - 2`.
    pub dirs: Vec<Vec<u8>>,
}

/// `n` zero bytes: the content of freshly allocated directory space.
pub open spec fn zero_bytes(n: nat) -> Seq<u8> {
    Seq::new(n, |i: int| 0u8)
}

impl FileSystem {
    /// A volume with an all-zero root region of `root_slots` directory
    /// slots and no allocated directory clusters.
    pub fn new(fat_type: FatType, root_slots: usize) -> (r: Self)
        requires
            root_slots <= 65536,
        ensures
            r.fat_type == fat_type,
            r.root@ == zero_bytes((32 * root_slots) as nat),
            r.dirs@.len() == 0,
    {
        let n: usize = 32 * root_slots;
        let mut root: Vec<u8> = Vec::new();
        let mut i: usize = 0;
        while i < n
            invariant
                i <= n,
                root@ =~= zero_bytes(i as nat),
            decreases n - i,
        {
            root.push(0);
            i = i + 1;
        }
        proof {
            assert(root@ =~= zero_bytes(n as nat));
        }
        FileSystem { fat_type, root, dirs: Vec::new() }
    }

    /// Allocate a fresh, empty directory cluster and return its number.
    /// Stands for the external cluster allocator: the model only ever needs
    /// a new empty region to write a subdirectory into.
    pub fn alloc_dir_cluster(&mut self) -> (c: u32)
        requires
            old(self).dirs@.len() + 2 <= 0xFFFF_FFFF,
        ensures
            c == old(self).dirs@.len() + 2,
            final(self).dirs@.len() == old(self).dirs@.len() + 1,
            final(self).dirs@[c - 2]@ == Seq::<u8>::empty(),
            forall|j: int|
                0 <= j < old(self).dirs@.len() ==> final(self).dirs@[j] == #[trigger] old(
                    self,
                ).dirs@[j],
            final(self).root == old(self).root,
            final(self).fat_type == old(self).fat_type,
    {
        let c: u32 = (self.dirs.len() + 2) as u32;
        self.dirs.push(Vec::new());
        c
    }
}

/// Which directory a stream reads: the fixed root region or a cluster
/// chain.
#[derive(Clone, Copy, Debug, PartialEq, Eq, Structural)]
pub enum DirHandle {
    Root,
    Cluster(u32),
}

/// The handle denotes a directory the model holds.
pub open spec fn handle_ok(fs: FileSystem, h: DirHandle) -> bool {
    match h {
        DirHandle::Root => true,
        DirHandle::Cluster(c) => 2 <= c && c - 2 < fs.dirs@.len(),
    }
}

/// The bytes of the directory the handle denotes.
pub open spec fn dir_bytes(fs: FileSystem, h: DirHandle) -> Seq<u8> {
    match h {
        DirHandle::Root => fs.root@,
        DirHandle::Cluster(c) => fs.dirs@[c - 2]@,
    }
}

/// The first cluster of the directory the handle denotes: none for the
/// fixed root.
pub open spec fn handle_first_cluster(h: DirHandle) -> Option<u32> {
    match h {
        DirHandle::Root => None,
        DirHandle::Cluster(c) => Some(c),
    }
}

/// The handle denotes a directory the model holds.
pub fn handle_valid(fs: &FileSystem, h: DirHandle) -> (r: bool)
    ensures
        r == handle_ok(*fs, h),
{
    match h {
        DirHandle::Root => true,
        DirHandle::Cluster(c) => c >= 2 && ((c - 2) as usize) < fs.dirs.len(),
    }
}

/// Borrow the bytes of the directory the handle denotes.
fn dir_ref<'a>(fs: &'a FileSystem, h: DirHandle) -> (r: &'a Vec<u8>)
    requires
        handle_ok(*fs, h),
    ensures
        r@ == dir_bytes(*fs, h),
{
    match h {
        DirHandle::Root => &fs.root,
        DirHandle::Cluster(c) => &fs.dirs[(c - 2) as usize],
    }
}

/// Number of whole 32-byte slots in a directory's bytes.
pub open spec fn num_slots(b: Seq<u8>) -> int {
    b.len() as int / 32
}

/// The classified view of slot `i`.
pub open spec fn slot_view_at(b: Seq<u8>, i: int) -> SlotView {
    parse_slot(b.subrange(32 * i, 32 * i + 32))
}

/// One logical directory entry as the iterator reports it.
#[verifier::ext_equal]
pub ghost struct EntrySpec {
    /// The SFN record's payload.
    pub sfn: SfnView,
    /// The decoded long name, in UTF-16 code units; empty when the entry
    /// has none (or its LFN run was discarded).
    pub name: Seq<u16>,
    /// Slot index where the entry's run (LFN slots, then SFN) begins.
    pub begin: int,
    /// Slot index just after the SFN slot.
    pub end: int,
}

/// A fresh LFN decoder state.
pub open spec fn builder_init() -> BuilderView {
    BuilderView { buf: Seq::empty(), chksum: 0, index: 0 }
}

/// The next logical entry found scanning from slot `i` with decoder state
/// `st` and run start `begin`: the end sentinel (or the end of the region)
/// stops the scan; free slots and volume labels reset the decoder and move
/// the run start; LFN slots feed the decoder; a used SFN slot yields the
/// entry, with its long name kept only when the decoder's run checksum
/// matches the short name.
pub open spec fn scan_entry(b: Seq<u8>, i: int, st: BuilderView, begin: int) -> Option<EntrySpec>
    decreases num_slots(b) - i,
{
    if i < 0 || i >= num_slots(b) {
        None
    } else {
        match slot_view_at(b, i) {
            SlotView::File(e) => {
                if e.name[0] == SLOT_END {
                    None
                } else if e.name[0] == SLOT_FREE || e.attrs & ATTR_VOLUME_ID != 0 {
                    scan_entry(b, i + 1, builder_clear(st), i + 1)
                } else {
                    Some(
                        EntrySpec {
                            sfn: e,
                            name: builder_name(builder_validate(st, e.name)),
                            begin: begin,
                            end: i + 1,
                        },
                    )
                }
            },
            SlotView::Lfn(e) => {
                if e.order == SLOT_FREE {
                    scan_entry(b, i + 1, builder_clear(st), i + 1)
                } else {
                    scan_entry(b, i + 1, builder_process(st, e), begin)
                }
            },
        }
    }
}

/// One user-visible directory entry: the SFN payload, the decoded long
/// name, and where the entry's slots lie in the parent directory.
#[derive(Debug)]
pub struct DirEntry {
    /// The SFN record's payload.
    pub data: DirFileEntryData,
    /// The decoded long name in UTF-16 code units; empty when none.
    pub lfn: Vec<u16>,
    /// Byte offsets `[start, end)` of the entry's slots in the parent.
    pub offset_range: (usize, usize),
    /// The parent directory; with `offset_range` it locates the SFN slot
    /// for in-place updates.
    pub dir: DirHandle,
}

/// The entry matches what a scan of the parent directory reports.
pub open spec fn entry_matches(e: DirEntry, s: EntrySpec, h: DirHandle) -> bool {
    &&& e.data@ == s.sfn
    &&& e.lfn@ == s.name
    &&& e.offset_range.0 == 32 * s.begin
    &&& e.offset_range.1 == 32 * s.end
    &&& e.dir == h
}

/// Directory entries iterator: walks the slots of one directory, pairing
/// LFN runs with their SFN record.
pub struct DirIter {
    /// The directory being walked.
    pub handle: DirHandle,
    /// Next slot index to examine.
    pub slot: usize,
}

impl DirIter {
    /// Yield the next logical entry, or nothing at the end of the
    /// directory.  The result is exactly what `scan_entry` reports from the
    /// current slot with a fresh decoder.
    pub fn next(&mut self, fs: &FileSystem) -> (r: Option<DirEntry>)
        requires
            handle_ok(*fs, old(self).handle),
        ensures
            final(self).handle == old(self).handle,
            ({
                let b = dir_bytes(*fs, old(self).handle);
                let res = scan_entry(b, old(self).slot as int, builder_init(), old(self).slot as int);
                match r {
                    Option::None => res is None && final(self).slot == old(self).slot,
                    Option::Some(e) => {
                        &&& res is Some
                        &&& entry_matches(e, res->0, old(self).handle)
                        &&& final(self).slot == res->0.end
                        &&& old(self).slot < final(self).slot <= num_slots(b)
                        &&& e.data@.name.len() == 11
                        &&& e.data@.attrs != ATTR_LFN
                    },
                }
            }),
    {
        let b = dir_ref(fs, self.handle);
        let blen = b.len();
        let nslots: usize = blen / 32;
        let ghost bb = b@;
        let ghost slot0 = self.slot as int;
        let mut builder = LongNameBuilder::new();
        let mut i: usize = self.slot;
        let mut begin: usize = self.slot;
        loop
            invariant_except_break
                *self == *old(self),
                handle_ok(*fs, self.handle),
                bb == dir_bytes(*fs, self.handle),
                b@ == bb,
                bb.len() == blen,
                nslots == num_slots(bb),
                blen <= usize::MAX,
                slot0 == old(self).slot as int,
                slot0 <= begin <= i,
                builder_wf(builder@),
                scan_entry(bb, slot0, builder_init(), slot0) == scan_entry(
                    bb,
                    i as int,
                    builder@,
                    begin as int,
                ),
            ensures
                scan_entry(bb, slot0, builder_init(), slot0) is None,
                self.slot == old(self).slot,
                self.handle == old(self).handle,
            decreases num_slots(bb) - i,
        {
            proof {
                assert(blen == 32 * num_slots(bb) + blen % 32);
            }
            if i >= nslots {
                break ;
            }
            proof {
                assert(i * 32 + 32 <= blen);
            }
            let raw = DirEntryData::deserialize(b, i * 32);
            let ghost st = builder@;
            let ghost bgn = begin as int;
            proof {
                assert(bb.subrange(32 * (i as int), 32 * (i as int) + 32) == bb.subrange(
                    i as int * 32,
                    i as int * 32 + 32,
                ));
                assert(raw@ == slot_view_at(bb, i as int));
            }
            match raw {
                DirEntryData::File(data) => {
                    if data.name[0] == SLOT_END {
                        proof {
                            assert(scan_entry(bb, i as int, st, bgn) is None);
                        }
                        break ;
                    }
                    let is_free = data.name[0] == SLOT_FREE;
                    let is_volume = data.attrs & ATTR_VOLUME_ID != 0;
                    if is_free || is_volume {
                        proof {
                            assert(scan_entry(bb, i as int, st, bgn) == scan_entry(
                                bb,
                                i + 1,
                                builder_clear(st),
                                i + 1,
                            ));
                        }
                        builder.clear();
                        i = i + 1;
                        begin = i;
                    } else {
                        proof {
                            assert((i + 1) * 32 <= blen);
                            assert(scan_entry(bb, i as int, st, bgn) == Some(
                                EntrySpec {
                                    sfn: data@,
                                    name: builder_name(builder_validate(st, data@.name)),
                                    begin: bgn,
                                    end: i + 1,
                                },
                            ));
                        }
                        builder.validate_chksum(&data.name);
                        let lfn = builder.to_vec();
                        let r = DirEntry {
                            data,
                            lfn,
                            offset_range: (begin * 32, (i + 1) * 32),
                            dir: self.handle,
                        };
                        self.slot = i + 1;
                        return Some(r);
                    }
                },
                DirEntryData::Lfn(data) => {
                    if data.order == SLOT_FREE {
                        proof {
                            assert(scan_entry(bb, i as int, st, bgn) == scan_entry(
                                bb,
                                i + 1,
                                builder_clear(st),
                                i + 1,
                            ));
                        }
                        builder.clear();
                        i = i + 1;
                        begin = i;
                    } else {
                        proof {
                            assert(scan_entry(bb, i as int, st, bgn) == scan_entry(
                                bb,
                                i + 1,
                                builder_process(st, data@),
                                bgn,
                            ));
                        }
                        builder.process(&data);
                        i = i + 1;
                    }
                },
            }
        }
        None
    }
}

pub proof fn lemma_scan_entry_bounds(b: Seq<u8>, i: int, st: BuilderView, begin: int)
    requires
        begin <= i,
    ensures
        scan_entry(b, i, st, begin) matches Some(e) ==> begin <= e.begin && e.begin < e.end && i
            < e.end && e.end <= num_slots(b),
    decreases num_slots(b) - i,
{
    if 0 <= i < num_slots(b) {
        match slot_view_at(b, i) {
            SlotView::File(e) => {
                if e.name[0] == SLOT_FREE || e.attrs & ATTR_VOLUME_ID != 0 {
                    lemma_scan_entry_bounds(b, i + 1, builder_clear(st), i + 1);
                }
            },
            SlotView::Lfn(e) => {
                if e.order == SLOT_FREE {
                    lemma_scan_entry_bounds(b, i + 1, builder_clear(st), i + 1);
                } else {
                    lemma_scan_entry_bounds(b, i + 1, builder_process(st, e), begin);
                }
            },
        }
    }
}

/// All logical entries of the directory from slot `i` on, in physical
/// order.
pub open spec fn dir_entries_from(b: Seq<u8>, i: int) -> Seq<EntrySpec>
    decreases num_slots(b) - i
        when 0 <= i
        via dir_entries_from_dec
{
    match scan_entry(b, i, builder_init(), i) {
        Option::None => Seq::empty(),
        Option::Some(e) => seq![e] + dir_entries_from(b, e.end),
    }
}

#[via_fn]
proof fn dir_entries_from_dec(b: Seq<u8>, i: int) {
    lemma_scan_entry_bounds(b, i, builder_init(), i);
}

/// Lower-case image of an ASCII code point; anything else unchanged.
pub open spec fn lower_u32(x: u32) -> u32 {
    if 65 <= x <= 90 {
        (x + 32) as u32
    } else {
        x
    }
}

/// ASCII-case-insensitive equality of two code points.
pub open spec fn ci_eq(a: u32, b: u32) -> bool {
    lower_u32(a) == lower_u32(b)
}

/// A name equals a UTF-16 sequence, ASCII-case-insensitively.
pub open spec fn name_eq_units(name: Seq<char>, u: Seq<u16>) -> bool {
    &&& name.len() == u.len()
    &&& forall|i: int| 0 <= i < name.len() ==> ci_eq(#[trigger] name[i] as u32, u[i] as u32)
}

/// A name equals a byte sequence, ASCII-case-insensitively.
pub open spec fn name_eq_bytes(name: Seq<char>, b: Seq<u8>) -> bool {
    &&& name.len() == b.len()
    &&& forall|i: int| 0 <= i < name.len() ==> ci_eq(#[trigger] name[i] as u32, b[i] as u32)
}

/// The byte sequence with trailing spaces removed.
pub open spec fn trim_right_spaces(b: Seq<u8>) -> Seq<u8>
    decreases b.len(),
{
    if b.len() > 0 && b.last() == 32 {
        trim_right_spaces(b.drop_last())
    } else {
        b
    }
}

/// The display form of an 11-byte short name: base and extension trimmed
/// of their space padding, joined by a dot when the extension is nonempty;
/// a stored first byte `0x05` decodes back to `0xE5`.
pub open spec fn short_display(name: Seq<u8>) -> Seq<u8> {
    let base0 = trim_right_spaces(name.take(8));
    let base = if base0.len() > 0 && base0[0] == 5 {
        base0.update(0, 0xE5u8)
    } else {
        base0
    };
    let ext = trim_right_spaces(name.skip(8));
    if ext.len() == 0 {
        base
    } else {
        base + seq![46u8] + ext
    }
}

/// The entry answers to the given name: by its long name when it has one,
/// or by the display form of its short name, both ASCII-case-insensitively.
pub open spec fn entry_matches_name(s: EntrySpec, name: Seq<char>) -> bool {
    ||| (s.name.len() > 0 && name_eq_units(name, s.name))
    ||| name_eq_bytes(name, short_display(s.sfn.name))
}

/// The first entry answering to the name, in physical order.
pub open spec fn find_first(entries: Seq<EntrySpec>, name: Seq<char>) -> Option<EntrySpec>
    decreases entries.len(),
{
    if entries.len() == 0 {
        Option::None
    } else if entry_matches_name(entries[0], name) {
        Option::Some(entries[0])
    } else {
        find_first(entries.drop_first(), name)
    }
}

/// The short names of a run of entries.
pub open spec fn names_of(entries: Seq<EntrySpec>) -> Set<Seq<u8>>
    decreases entries.len(),
{
    if entries.len() == 0 {
        Set::empty()
    } else {
        names_of(entries.drop_first()).insert(entries[0].sfn.name)
    }
}

/// The short names of the entries that precede the first one answering to
/// `name` (all of them when none does).
pub open spec fn names_before(entries: Seq<EntrySpec>, name: Seq<char>) -> Set<Seq<u8>>
    decreases entries.len(),
{
    if entries.len() == 0 {
        Set::empty()
    } else if entry_matches_name(entries[0], name) {
        Set::empty()
    } else {
        names_before(entries.drop_first(), name).insert(entries[0].sfn.name)
    }
}

/// When nothing answers to the name, the names before the (absent) match
/// are all of them.
pub proof fn lemma_names_before_all(entries: Seq<EntrySpec>, name: Seq<char>)
    requires
        find_first(entries, name) is None,
    ensures
        names_before(entries, name) == names_of(entries),
    decreases entries.len(),
{
    if entries.len() > 0 {
        lemma_names_before_all(entries.drop_first(), name);
    }
}

/// The display form of an 11-byte short name as bytes.
fn short_display_bytes(name: &Vec<u8>) -> (r: Vec<u8>)
    requires
        name@.len() == 11,
    ensures
        r@ == short_display(name@),
{
    let ghost base_t = trim_right_spaces(name@.take(8));
    let ghost ext_t = trim_right_spaces(name@.skip(8));
    let mut base_end: usize = 8;
    proof {
        assert(name@.take(8).take(8) =~= name@.take(8));
    }
    while base_end > 0 && name[base_end - 1] == 32
        invariant
            base_end <= 8,
            name@.len() == 11,
            base_t == trim_right_spaces(name@.take(8)),
            base_t == trim_right_spaces(name@.take(8).take(base_end as int)),
        decreases base_end,
    {
        proof {
            let cur = name@.take(8).take(base_end as int);
            assert(cur.last() == name@[base_end - 1]);
            assert(cur.drop_last() =~= name@.take(8).take(base_end - 1));
        }
        base_end = base_end - 1;
    }
    proof {
        let cur = name@.take(8).take(base_end as int);
        if base_end > 0 {
            assert(cur.last() == name@[base_end - 1]);
        }
        assert(trim_right_spaces(cur) == cur);
        assert(base_t == name@.take(8).take(base_end as int));
    }
    let mut ext_end: usize = 3;
    proof {
        assert(name@.skip(8).take(3) =~= name@.skip(8));
    }
    while ext_end > 0 && name[8 + ext_end - 1] == 32
        invariant
            ext_end <= 3,
            name@.len() == 11,
            ext_t == trim_right_spaces(name@.skip(8)),
            ext_t == trim_right_spaces(name@.skip(8).take(ext_end as int)),
        decreases ext_end,
    {
        proof {
            let cur = name@.skip(8).take(ext_end as int);
            assert(cur.last() == name@[8 + ext_end - 1]);
            assert(cur.drop_last() =~= name@.skip(8).take(ext_end - 1));
        }
        ext_end = ext_end - 1;
    }
    proof {
        let cur = name@.skip(8).take(ext_end as int);
        if ext_end > 0 {
            assert(cur.last() == name@[8 + ext_end - 1]);
        }
        assert(trim_right_spaces(cur) == cur);
        assert(ext_t == name@.skip(8).take(ext_end as int));
    }
    let mut r: Vec<u8> = Vec::new();
    let mut i: usize = 0;
    while i < base_end
        invariant
            i <= base_end <= 8,
            name@.len() == 11,
            r@ == name@.take(8).take(base_end as int).subrange(0, i as int),
        decreases base_end - i,
    {
        r.push(name[i]);
        i = i + 1;
    }
    proof {
        assert(r@ =~= base_t);
    }
    if r.len() > 0 {
        if r[0] == 5 {
            r.set(0, 0xE5);
        }
    }
    if ext_end > 0 {
        r.push(46);
        let mut j: usize = 0;
        let ghost with_dot = r@;
        while j < ext_end
            invariant
                j <= ext_end <= 3,
                name@.len() == 11,
                r@ == with_dot + name@.skip(8).take(ext_end as int).subrange(0, j as int),
            decreases ext_end - j,
        {
            r.push(name[8 + j]);
            j = j + 1;
        }
        proof {
            assert(r@ =~= short_display(name@));
        }
    } else {
        proof {
            assert(r@ =~= short_display(name@));
        }
    }
    r
}

/// ASCII-case-insensitive equality of a name and a UTF-16 sequence.
fn name_matches_units(name: &Vec<char>, u: &Vec<u16>) -> (r: bool)
    ensures
        r == name_eq_units(name@, u@),
{
    if name.len() != u.len() {
        return false;
    }
    let mut i: usize = 0;
    while i < name.len()
        invariant
            i <= name@.len(),
            name@.len() == u@.len(),
            forall|j: int| 0 <= j < i ==> ci_eq(#[trigger] name@[j] as u32, u@[j] as u32),
        decreases name@.len() - i,
    {
        let a = name[i] as u32;
        let b = u[i] as u32;
        let la: u32 = if a >= 65 && a <= 90 {
            a + 32
        } else {
            a
        };
        let lb: u32 = if b >= 65 && b <= 90 {
            b + 32
        } else {
            b
        };
        if la != lb {
            return false;
        }
        i = i + 1;
    }
    true
}

/// ASCII-case-insensitive equality of a name and a byte sequence.
fn name_matches_bytes(name: &Vec<char>, b: &Vec<u8>) -> (r: bool)
    ensures
        r == name_eq_bytes(name@, b@),
{
    if name.len() != b.len() {
        return false;
    }
    let mut i: usize = 0;
    while i < name.len()
        invariant
            i <= name@.len(),
            name@.len() == b@.len(),
            forall|j: int| 0 <= j < i ==> ci_eq(#[trigger] name@[j] as u32, b@[j] as u32),
        decreases name@.len() - i,
    {
        let a = name[i] as u32;
        let c = b[i] as u32;
        let la: u32 = if a >= 65 && a <= 90 {
            a + 32
        } else {
            a
        };
        let lc: u32 = if c >= 65 && c <= 90 {
            c + 32
        } else {
            c
        };
        if la != lc {
            return false;
        }
        i = i + 1;
    }
    true
}

impl DirEntry {
    /// The entry describes a subdirectory.
    pub fn is_dir(&self) -> (r: bool)
        ensures
            r == (self.data@.attrs & ATTR_DIRECTORY != 0),
    {
        self.data.is_dir()
    }

    /// First cluster of the entry's data, under the volume's FAT variant.
    pub fn first_cluster(&self, fat_type: FatType) -> (r: Option<u32>)
        ensures
            r == sfn_first_cluster(self.data@, fat_type),
    {
        self.data.first_cluster(fat_type)
    }

    /// The directory handle this entry leads to: its first cluster, or the
    /// root region when it stores none (as the `..` entry of a first-level
    /// subdirectory does).
    pub fn to_dir_handle(&self, fat_type: FatType) -> (r: DirHandle)
        ensures
            r == (match sfn_first_cluster(self.data@, fat_type) {
                Option::Some(c) => DirHandle::Cluster(c),
                Option::None => DirHandle::Root,
            }),
    {
        match self.data.first_cluster(fat_type) {
            Option::Some(c) => DirHandle::Cluster(c),
            Option::None => DirHandle::Root,
        }
    }

    /// The entry answers to the given name (long or short form).
    pub fn matches_name(&self, name: &Vec<char>) -> (r: bool)
        requires
            self.data@.name.len() == 11,
        ensures
            r == ((self.lfn@.len() > 0 && name_eq_units(name@, self.lfn@)) || name_eq_bytes(
                name@,
                short_display(self.data@.name),
            )),
    {
        if self.lfn.len() > 0 && name_matches_units(name, &self.lfn) {
            return true;
        }
        let disp = short_display_bytes(&self.data.name);
        name_matches_bytes(name, &disp)
    }
}

/// A directory of the volume: the root region or a cluster-backed
/// subdirectory.
#[derive(Debug)]
pub struct Dir {
    /// Which directory this is.
    pub handle: DirHandle,
}

impl Dir {
    /// The directory behind a handle.
    pub fn new(handle: DirHandle) -> (r: Self)
        ensures
            r.handle == handle,
    {
        Dir { handle }
    }

    /// The directory's own first cluster: none for the fixed root region.
    pub fn first_cluster(&self) -> (r: Option<u32>)
        ensures
            r == handle_first_cluster(self.handle),
    {
        match self.handle {
            DirHandle::Root => Option::None,
            DirHandle::Cluster(c) => Option::Some(c),
        }
    }

    /// Creates a directory entries iterator, starting at the first slot.
    pub fn iter(&self) -> (r: DirIter)
        ensures
            r.handle == self.handle,
            r.slot == 0,
    {
        DirIter { handle: self.handle, slot: 0 }
    }

    /// Look the name up among this directory's entries, comparing long and
    /// short names case-insensitively, and feed every short name seen on
    /// the way into the generator.  When a kind is demanded (`is_dir`), a
    /// match of the other kind is an error.  `NotFound` means the whole
    /// directory was walked, and the generator then knows every short name
    /// in it.
    pub fn find_entry(
        &self,
        fs: &FileSystem,
        name: &Vec<char>,
        is_dir: Option<bool>,
        gen: &mut ShortNameGenerator,
    ) -> (r: Result<DirEntry, Error>)
        requires
            handle_ok(*fs, self.handle),
            gen_wf(old(gen)@),
        ensures
            gen_wf(final(gen)@),
            final(gen)@.chksum == old(gen)@.chksum,
            final(gen)@.short_name == old(gen)@.short_name,
            final(gen)@.basename_len == old(gen)@.basename_len,
            final(gen)@.name_fits == old(gen)@.name_fits,
            final(gen)@.lossy_conv == old(gen)@.lossy_conv,
            ({
                let fed = names_before(
                    dir_entries_from(dir_bytes(*fs, self.handle), 0),
                    name@,
                );
                &&& final(gen)@.seen == old(gen)@.seen.union(fed)
                &&& final(gen)@.exact_match == (old(gen)@.exact_match || fed.contains(
                    old(gen)@.short_name,
                ))
                &&& (forall|d: u16|
                    d < 16 ==> #[trigger] bit_set(final(gen)@.long_prefix_bitmap, d) == (bit_set(
                        old(gen)@.long_prefix_bitmap,
                        d,
                    ) || long_collision(old(gen)@, fed, d)))
                &&& (forall|d: u16|
                    d < 16 ==> #[trigger] bit_set(final(gen)@.prefix_chksum_bitmap, d) == (bit_set(
                        old(gen)@.prefix_chksum_bitmap,
                        d,
                    ) || chksum_collision(old(gen)@, fed, d)))
            }),
            ({
                let es = dir_entries_from(dir_bytes(*fs, self.handle), 0);
                let m = find_first(es, name@);
                match r {
                    Result::Err(Error::NotFound) => m is None && final(gen)@.seen == old(
                        gen,
                    )@.seen.union(names_of(es)),
                    Result::Ok(e) => {
                        &&& m is Some
                        &&& entry_matches(e, m->0, self.handle)
                        &&& e.data@.name.len() == 11
                        &&& e.data@.attrs != ATTR_LFN
                        &&& 0 <= m->0.begin < m->0.end <= num_slots(
                            dir_bytes(*fs, self.handle),
                        )
                        &&& (is_dir is Some ==> (m->0.sfn.attrs & ATTR_DIRECTORY != 0) == is_dir->0)
                    },
                    Result::Err(Error::IsADirectory) => m is Some && m->0.sfn.attrs & ATTR_DIRECTORY
                        != 0 && is_dir == Some(false),
                    Result::Err(Error::NotADirectory) => m is Some && m->0.sfn.attrs
                        & ATTR_DIRECTORY == 0 && is_dir == Some(true),
                    _ => false,
                }
            }),
    {
        let ghost b = dir_bytes(*fs, self.handle);
        let ghost es0 = dir_entries_from(b, 0);
        let ghost seen0 = old(gen)@.seen;
        let ghost g0 = old(gen)@;
        let ghost mut fed: Set<Seq<u8>> = Set::empty();
        let mut it = self.iter();
        proof {
            assert(gen@.seen =~= seen0.union(fed));
        }
        loop
            invariant_except_break
                handle_ok(*fs, self.handle),
                it.handle == self.handle,
                b == dir_bytes(*fs, self.handle),
                es0 == dir_entries_from(b, 0),
                seen0 == old(gen)@.seen,
                g0 == old(gen)@,
                0 <= it.slot,
                gen_wf(gen@),
                gen@.chksum == old(gen)@.chksum,
                gen@.short_name == old(gen)@.short_name,
                gen@.basename_len == old(gen)@.basename_len,
                gen@.name_fits == old(gen)@.name_fits,
                gen@.lossy_conv == old(gen)@.lossy_conv,
                find_first(es0, name@) == find_first(dir_entries_from(b, it.slot as int), name@),
                seen0.union(names_of(es0)) == gen@.seen.union(
                    names_of(dir_entries_from(b, it.slot as int)),
                ),
                gen@.seen.subset_of(seen0.union(names_of(es0))),
                gen@.seen == seen0.union(fed),
                names_before(es0, name@) == fed.union(
                    names_before(dir_entries_from(b, it.slot as int), name@),
                ),
                gen@.exact_match == (g0.exact_match || fed.contains(g0.short_name)),
                forall|d: u16|
                    d < 16 ==> #[trigger] bit_set(gen@.long_prefix_bitmap, d) == (bit_set(
                        g0.long_prefix_bitmap,
                        d,
                    ) || long_collision(g0, fed, d)),
                forall|d: u16|
                    d < 16 ==> #[trigger] bit_set(gen@.prefix_chksum_bitmap, d) == (bit_set(
                        g0.prefix_chksum_bitmap,
                        d,
                    ) || chksum_collision(g0, fed, d)),
            ensures
                gen_wf(gen@),
                gen@.chksum == old(gen)@.chksum,
                gen@.short_name == old(gen)@.short_name,
                gen@.basename_len == old(gen)@.basename_len,
                gen@.name_fits == old(gen)@.name_fits,
                gen@.lossy_conv == old(gen)@.lossy_conv,
                find_first(es0, name@) is None,
                gen@.seen == seen0.union(names_of(es0)),
                gen@.seen == seen0.union(names_before(es0, name@)),
                gen@.exact_match == (g0.exact_match || names_before(es0, name@).contains(
                    g0.short_name,
                )),
                forall|d: u16|
                    d < 16 ==> #[trigger] bit_set(gen@.long_prefix_bitmap, d) == (bit_set(
                        g0.long_prefix_bitmap,
                        d,
                    ) || long_collision(g0, names_before(es0, name@), d)),
                forall|d: u16|
                    d < 16 ==> #[trigger] bit_set(gen@.prefix_chksum_bitmap, d) == (bit_set(
                        g0.prefix_chksum_bitmap,
                        d,
                    ) || chksum_collision(g0, names_before(es0, name@), d)),
            decreases num_slots(b) + 1 - it.slot,
        {
            let ghost slot_before = it.slot as int;
            let ghost esc = dir_entries_from(b, slot_before);
            let next = it.next(fs);
            match next {
                Option::None => {
                    proof {
                        assert(esc =~= Seq::<EntrySpec>::empty());
                        assert(names_of(esc) =~= Set::<Seq<u8>>::empty());
                        assert(gen@.seen.union(names_of(esc)) =~= gen@.seen);
                        assert(gen@.seen =~= seen0.union(names_of(es0)));
                        assert(names_before(esc, name@) =~= Set::<Seq<u8>>::empty());
                        assert(fed =~= names_before(es0, name@));
                    }
                    break ;
                },
                Option::Some(e) => {
                    let ghost s = scan_entry(b, slot_before, builder_init(), slot_before)->0;
                    proof {
                        assert(esc == seq![s] + dir_entries_from(b, s.end));
                        assert(esc[0] == s);
                        assert(esc.drop_first() =~= dir_entries_from(b, s.end));
                    }
                    let matched = e.matches_name(name);
                    proof {
                        assert(matched == entry_matches_name(s, name@));
                        lemma_scan_entry_bounds(b, slot_before, builder_init(), slot_before);
                    }
                    if matched {
                        proof {
                            assert(names_before(esc, name@) =~= Set::<Seq<u8>>::empty());
                            assert(fed =~= names_before(es0, name@));
                            assert(gen@.seen =~= seen0.union(names_before(es0, name@)));
                        }
                        let entry_is_dir = e.is_dir();
                        match is_dir {
                            Option::Some(want) => {
                                if entry_is_dir != want {
                                    if entry_is_dir {
                                        return Err(Error::IsADirectory);
                                    } else {
                                        return Err(Error::NotADirectory);
                                    }
                                }
                            },
                            Option::None => {},
                        }
                        return Ok(e);
                    }
                    let ghost gcur = gen@;
                    gen.add_existing(&e.data.name);
                    proof {
                        let nm = s.sfn.name;
                        assert(names_of(esc) == names_of(dir_entries_from(b, s.end)).insert(nm));
                        assert(gen@.seen.union(names_of(dir_entries_from(b, s.end)))
                            =~= seen0.union(names_of(es0)));
                        assert(gen@.seen.subset_of(seen0.union(names_of(es0))));
                        assert(names_before(esc, name@) == names_before(
                            dir_entries_from(b, s.end),
                            name@,
                        ).insert(nm));
                        let fed2 = fed.insert(nm);
                        assert(gen@.seen =~= seen0.union(fed2));
                        assert(names_before(es0, name@) =~= fed2.union(
                            names_before(dir_entries_from(b, s.end), name@),
                        ));
                        assert(gen@.exact_match == (g0.exact_match || fed2.contains(
                            g0.short_name,
                        ))) by {
                            if nm == g0.short_name {
                                assert(fed2.contains(g0.short_name));
                            }
                        }
                        assert forall|d: u16| d < 16 implies #[trigger] bit_set(
                            gen@.long_prefix_bitmap,
                            d,
                        ) == (bit_set(g0.long_prefix_bitmap, d) || long_collision(g0, fed2, d)) by {
                            assert(long_pattern(gcur, nm, d) == long_pattern(g0, nm, d));
                            if long_collision(g0, fed2, d) {
                                let n = choose|n: Seq<u8>|
                                    #[trigger] fed2.contains(n) && long_pattern(g0, n, d);
                                if n == nm {
                                } else {
                                    assert(fed.contains(n) && long_pattern(g0, n, d));
                                }
                            }
                            if long_pattern(g0, nm, d) {
                                assert(fed2.contains(nm) && long_pattern(g0, nm, d));
                            }
                            if long_collision(g0, fed, d) {
                                let n = choose|n: Seq<u8>|
                                    #[trigger] fed.contains(n) && long_pattern(g0, n, d);
                                assert(fed2.contains(n) && long_pattern(g0, n, d));
                            }
                        }
                        assert forall|d: u16| d < 16 implies #[trigger] bit_set(
                            gen@.prefix_chksum_bitmap,
                            d,
                        ) == (bit_set(g0.prefix_chksum_bitmap, d) || chksum_collision(
                            g0,
                            fed2,
                            d,
                        )) by {
                            assert(chksum_pattern(gcur, nm, d) == chksum_pattern(g0, nm, d));
                            if chksum_collision(g0, fed2, d) {
                                let n = choose|n: Seq<u8>|
                                    #[trigger] fed2.contains(n) && chksum_pattern(g0, n, d);
                                if n == nm {
                                } else {
                                    assert(fed.contains(n) && chksum_pattern(g0, n, d));
                                }
                            }
                            if chksum_pattern(g0, nm, d) {
                                assert(fed2.contains(nm) && chksum_pattern(g0, nm, d));
                            }
                            if chksum_collision(g0, fed, d) {
                                let n = choose|n: Seq<u8>|
                                    #[trigger] fed.contains(n) && chksum_pattern(g0, n, d);
                                assert(fed2.contains(n) && chksum_pattern(g0, n, d));
                            }
                        }
                        fed = fed2;
                    }
                },
            }
        }
        Err(Error::NotFound)
    }
}

/// Well-formed model: no directory region exceeds the format's limit of
/// 65536 slots (2 MiB).
pub open spec fn fs_wf(fs: FileSystem) -> bool {
    &&& fs.root@.len() <= 0x200000
    &&& forall|j: int| 0 <= j < fs.dirs@.len() ==> (#[trigger] fs.dirs@[j])@.len() <= 0x200000
}

/// `b` extended with zero bytes to at least `n` bytes.
pub open spec fn grown(b: Seq<u8>, n: int) -> Seq<u8> {
    if b.len() >= n {
        b
    } else {
        b + zero_bytes((n - b.len()) as nat)
    }
}

/// `b`, grown to cover slot `i`, with slot `i` overwritten by `s`.
pub open spec fn spliced(b: Seq<u8>, i: int, s: Seq<u8>) -> Seq<u8> {
    let g = grown(b, 32 * (i + 1));
    g.take(32 * i) + s + g.skip(32 * i + 32)
}

/// Overwrite `bytes` into `v` at byte offset `off`.
fn overwrite_bytes(v: &mut Vec<u8>, off: usize, bytes: &Vec<u8>)
    requires
        off + bytes@.len() <= old(v)@.len(),
    ensures
        final(v)@ == old(v)@.take(off as int) + bytes@ + old(v)@.skip(off + bytes@.len()),
        final(v)@.len() == old(v)@.len(),
{
    let n = bytes.len();
    let vlen = v.len();
    let mut j: usize = 0;
    while j < n
        invariant
            j <= n,
            n == bytes@.len(),
            off + n <= v@.len() <= usize::MAX,
            v@.len() == old(v)@.len(),
            forall|p: int| 0 <= p < v@.len() && !(off <= p < off + j) ==> v@[p] == old(v)@[p],
            forall|p: int| off <= p < off + j ==> v@[p] == bytes@[p - off],
        decreases n - j,
    {
        v.set(off + j, bytes[j]);
        j = j + 1;
    }
    proof {
        assert(v@ =~= old(v)@.take(off as int) + bytes@ + old(v)@.skip(off + bytes@.len()));
    }
}

/// Write one serialized 32-byte slot into the directory at slot index `i`,
/// growing a cluster-backed directory with zero fill as needed; the fixed
/// root region cannot grow.
fn write_slot(fs: &mut FileSystem, h: DirHandle, i: usize, bytes: &Vec<u8>) -> (r: Result<
    (),
    Error,
>)
    requires
        handle_ok(*old(fs), h),
        fs_wf(*old(fs)),
        bytes@.len() == 32,
        i < 65536,
    ensures
        fs_wf(*final(fs)),
        final(fs).fat_type == old(fs).fat_type,
        final(fs).dirs@.len() == old(fs).dirs@.len(),
        handle_ok(*final(fs), h),
        (r is Ok) == (h is Cluster || 32 * (i + 1) <= old(fs).root@.len()),
        r is Ok ==> dir_bytes(*final(fs), h) == spliced(dir_bytes(*old(fs), h), i as int, bytes@),
        r is Ok && h is Root ==> final(fs).dirs@ == old(fs).dirs@,
        r is Ok && h is Cluster ==> final(fs).root == old(fs).root && (forall|j: int|
            0 <= j < old(fs).dirs@.len() && j != h->Cluster_0 - 2 ==> final(fs).dirs@[j]
                == #[trigger] old(fs).dirs@[j]),
        r is Err ==> *final(fs) == *old(fs) && r->Err_0 == Error::DirectoryFull && h is Root,
{
    match h {
        DirHandle::Root => {
            if i * 32 + 32 > fs.root.len() {
                return Err(Error::DirectoryFull);
            }
            let ghost b0 = fs.root@;
            overwrite_bytes(&mut fs.root, i * 32, bytes);
            proof {
                assert(grown(b0, 32 * (i as int + 1)) == b0);
                assert(dir_bytes(*fs, h) =~= spliced(b0, i as int, bytes@));
            }
            Ok(())
        },
        DirHandle::Cluster(c) => {
            let idx = (c - 2) as usize;
            let ghost b0 = fs.dirs@[idx as int]@;
            let mut tmp: Vec<u8> = Vec::new();
            fs.dirs.set_and_swap(idx, &mut tmp);
            let target: usize = i * 32 + 32;
            while tmp.len() < target
                invariant
                    target <= 0x200000,
                    b0.len() <= 0x200000,
                    tmp@ == grown(b0, tmp@.len() as int),
                    tmp@.len() >= b0.len(),
                    tmp@.len() <= target || tmp@.len() == b0.len(),
                decreases target - tmp@.len(),
            {
                let ghost prev = tmp@;
                tmp.push(0);
                proof {
                    assert(tmp@ =~= grown(b0, tmp@.len() as int));
                }
            }
            proof {
                assert(tmp@ == grown(b0, 32 * (i as int + 1)));
            }
            overwrite_bytes(&mut tmp, i * 32, bytes);
            proof {
                assert(tmp@ == spliced(b0, i as int, bytes@));
            }
            fs.dirs.set_and_swap(idx, &mut tmp);
            proof {
                assert(dir_bytes(*fs, h) == spliced(b0, i as int, bytes@));
                assert(fs_wf(*fs));
            }
            Ok(())
        },
    }
}

/// The slot where the free-slot search ends, mirroring the scan: free
/// slots accumulate into a run, used slots reset it, and the
/// end-of-directory sentinel (or the end of the region) lets the run
/// continue into the tail.
pub open spec fn find_free_spec(b: Seq<u8>, n: int, i: int, first_free: int, num_free: int) -> int
    decreases num_slots(b) - i,
{
    if i < 0 || i >= num_slots(b) {
        if num_free == 0 {
            i
        } else {
            first_free
        }
    } else {
        let v = slot_view_at(b, i);
        if crate::codec::slot_is_end(v) {
            if num_free == 0 {
                i
            } else {
                first_free
            }
        } else if crate::codec::slot_is_free(v) {
            let ff = if num_free == 0 {
                i
            } else {
                first_free
            };
            if num_free + 1 == n {
                ff
            } else {
                find_free_spec(b, n, i + 1, ff, num_free + 1)
            }
        } else {
            find_free_spec(b, n, i + 1, first_free, 0)
        }
    }
}

/// The first-fit position for a run of `n` slots: the earliest run of `n`
/// free slots, or the earliest tail of free slots before the end sentinel,
/// or the end sentinel itself.
pub open spec fn first_fit(b: Seq<u8>, n: int) -> int {
    find_free_spec(b, n, 0, 0, 0)
}

proof fn lemma_find_free_bound(b: Seq<u8>, n: int, i: int, ff: int, nf: int)
    requires
        0 <= ff <= i <= num_slots(b),
    ensures
        0 <= find_free_spec(b, n, i, ff, nf) <= num_slots(b),
    decreases num_slots(b) - i,
{
    if 0 <= i < num_slots(b) {
        let v = slot_view_at(b, i);
        if crate::codec::slot_is_end(v) {
        } else if crate::codec::slot_is_free(v) {
            let ff2 = if nf == 0 {
                i
            } else {
                ff
            };
            if nf + 1 != n {
                lemma_find_free_bound(b, n, i + 1, ff2, nf + 1);
            }
        } else {
            lemma_find_free_bound(b, n, i + 1, ff, 0);
        }
    }
}

/// The first-fit position never lies past the end of the region.
pub proof fn lemma_first_fit_bound(b: Seq<u8>, n: int)
    ensures
        0 <= first_fit(b, n) <= num_slots(b),
{
    lemma_find_free_bound(b, n, 0, 0, 0);
}

impl Dir {
    /// Find the first-fit slot index for a run of `num_entries` contiguous
    /// slots: free slots accumulate, used slots reset the run, and on the
    /// end sentinel (or the end of the region) the run continues into the
    /// directory's growable tail.
    pub fn find_free_entries(&self, fs: &FileSystem, num_entries: usize) -> (r: usize)
        requires
            handle_ok(*fs, self.handle),
            1 <= num_entries,
        ensures
            r as int == first_fit(dir_bytes(*fs, self.handle), num_entries as int),
            r as int <= num_slots(dir_bytes(*fs, self.handle)),
    {
        let b = dir_ref(fs, self.handle);
        let blen = b.len();
        let nslots: usize = blen / 32;
        let ghost bb = b@;
        let ghost n = num_entries as int;
        let mut i: usize = 0;
        let mut first_free: usize = 0;
        let mut num_free: usize = 0;
        loop
            invariant_except_break
                b@ == bb,
                bb.len() == blen,
                blen <= usize::MAX,
                nslots == num_slots(bb),
                n == num_entries as int,
                1 <= n,
                first_free <= i <= nslots,
                num_free < num_entries,
                first_fit(bb, n) == find_free_spec(bb, n, i as int, first_free as int, num_free as int),
            ensures
                i as int <= num_slots(bb),
                first_fit(bb, n) == i as int,
            decreases nslots - i,
        {
            proof {
                assert(blen == 32 * num_slots(bb) + blen % 32);
            }
            if i >= nslots {
                if num_free > 0 {
                    i = first_free;
                }
                break ;
            }
            proof {
                assert(i * 32 + 32 <= blen);
            }
            let raw = DirEntryData::deserialize(b, i * 32);
            proof {
                assert(bb.subrange(32 * (i as int), 32 * (i as int) + 32) == bb.subrange(
                    i as int * 32,
                    i as int * 32 + 32,
                ));
                assert(raw@ == slot_view_at(bb, i as int));
            }
            if raw.is_end() {
                if num_free > 0 {
                    i = first_free;
                }
                break ;
            } else if raw.is_free() {
                if num_free == 0 {
                    first_free = i;
                }
                num_free = num_free + 1;
                if num_free == num_entries {
                    i = first_free;
                    break ;
                }
                i = i + 1;
            } else {
                num_free = 0;
                i = i + 1;
            }
        }
        i
    }
}

/// The UTF-16 code units of a name whose characters all lie in the Basic
/// Multilingual Plane, as long-name validation guarantees.
pub open spec fn units_of(s: Seq<char>) -> Seq<u16> {
    Seq::new(s.len(), |i: int| ((s[i] as u32) % 65536) as u16)
}

/// The on-disk bytes of a whole logical entry: the LFN slots in write
/// order, then the SFN slot.
pub open spec fn run_bytes(units: Seq<u16>, chk: u8, sfn: SfnView) -> Seq<u8> {
    let k = num_lfn_entries(units.len()) as int;
    Seq::new(
        (32 * (k + 1)) as nat,
        |p: int|
            if p / 32 < k {
                lfn_bytes(lfn_entry_view(units, chk, p / 32))[p % 32]
            } else {
                sfn_bytes(sfn)[p % 32]
            },
    )
}

/// The directory bytes after a run is written at slot `s`: grown to cover
/// it, the run's bytes in place, everything else untouched.
pub open spec fn written_dir(b0: Seq<u8>, s: int, run: Seq<u8>) -> Seq<u8> {
    let g = grown(b0, 32 * s + run.len());
    Seq::new(
        g.len(),
        |p: int|
            if 32 * s <= p < 32 * s + run.len() {
                run[p - 32 * s]
            } else {
                g[p]
            },
    )
}

proof fn lemma_write_step(b0: Seq<u8>, s: int, run: Seq<u8>, j: int)
    requires
        0 <= s,
        0 <= j,
        32 * (j + 1) <= run.len(),
    ensures
        spliced(written_dir(b0, s, run.take(32 * j)), s + j, run.subrange(32 * j, 32 * j + 32))
            == written_dir(b0, s, run.take(32 * (j + 1))),
{
    let w = written_dir(b0, s, run.take(32 * j));
    let lhs = spliced(w, s + j, run.subrange(32 * j, 32 * j + 32));
    let rhs = written_dir(b0, s, run.take(32 * (j + 1)));
    assert(lhs =~= rhs);
}

/// The UTF-16 code units of a validated long name.
fn utf16_of(name: &Vec<char>) -> (r: Vec<u16>)
    ensures
        r@ == units_of(name@),
{
    let mut r: Vec<u16> = Vec::new();
    let mut i: usize = 0;
    while i < name.len()
        invariant
            i <= name@.len(),
            r@.len() == i,
            forall|j: int| 0 <= j < i ==> r@[j] == units_of(name@)[j],
        decreases name@.len() - i,
    {
        r.push(((name[i] as u32) % 65536) as u16);
        i = i + 1;
    }
    proof {
        assert(r@ =~= units_of(name@));
    }
    r
}

impl Dir {
    /// Write a new logical entry: validate the long name, encode its LFN
    /// run bound to the short name's checksum, reserve a first-fit run of
    /// contiguous slots, and serialize the LFN slots followed by the SFN
    /// record.  Fails with `InvalidInput` exactly when the name is
    /// invalid, and with `DirectoryFull` exactly when the run does not fit
    /// the fixed root region (or would push a directory past the format's
    /// 65536-slot limit).
    pub fn write_entry(
        &self,
        fs: &mut FileSystem,
        name: &Vec<char>,
        raw_entry: DirFileEntryData,
    ) -> (r: Result<DirEntry, Error>)
        requires
            handle_ok(*old(fs), self.handle),
            fs_wf(*old(fs)),
            raw_entry@.name.len() == 11,
            raw_entry@.attrs != ATTR_LFN,
        ensures
            fs_wf(*final(fs)),
            final(fs).fat_type == old(fs).fat_type,
            final(fs).dirs@.len() == old(fs).dirs@.len(),
            handle_ok(*final(fs), self.handle),
            r is Err ==> *final(fs) == *old(fs),
            (r is Err && !valid_long_name(name@)) ==> r->Err_0 == Error::InvalidInput,
            (r is Err && valid_long_name(name@)) ==> r->Err_0 == Error::DirectoryFull,
            ({
                let b0 = dir_bytes(*old(fs), self.handle);
                let units = units_of(name@);
                let chk = lfn_checksum_spec(raw_entry@.name);
                let k = num_lfn_entries(units.len()) as int;
                let s = first_fit(b0, k + 1);
                &&& (r is Ok) == (valid_long_name(name@) && s + k + 1 <= 65536 && (self.handle
                    is Root ==> 32 * (s + k + 1) <= b0.len()))
                &&& r is Ok ==> {
                    &&& dir_bytes(*final(fs), self.handle) == written_dir(
                        b0,
                        s,
                        run_bytes(units, chk, raw_entry@),
                    )
                    &&& (self.handle is Root ==> final(fs).dirs@ == old(fs).dirs@)
                    &&& (self.handle is Cluster ==> final(fs).root == old(fs).root && (forall|
                        j: int,
                    |
                        0 <= j < old(fs).dirs@.len() && j != self.handle->Cluster_0 - 2
                            ==> final(fs).dirs@[j] == #[trigger] old(fs).dirs@[j]))
                    &&& r->Ok_0.data@ == raw_entry@
                    &&& r->Ok_0.lfn@.len() == 0
                    &&& r->Ok_0.offset_range.0 == 32 * s
                    &&& r->Ok_0.offset_range.1 == 32 * (s + k + 1)
                    &&& r->Ok_0.dir == self.handle
                }
            }),
    {
        match crate::path::validate_long_name(name) {
            Result::Err(e) => {
                return Err(e);
            },
            Result::Ok(()) => {},
        }
        let units = utf16_of(name);
        let chk = lfn_checksum(&raw_entry.name);
        let lfn_entries = generate_lfn_entries(&units, chk);
        let k = lfn_entries.len();
        let num = k + 1;
        let s = self.find_free_entries(fs, num);
        let ghost b0 = dir_bytes(*fs, self.handle);
        let ghost run = run_bytes(units@, chk, raw_entry@);
        proof {
            assert(32 * num_slots(b0) <= b0.len());
        }
        if s + num > 65536 {
            return Err(Error::DirectoryFull);
        }
        if let DirHandle::Root = self.handle {
            let rootlen = fs.root.len();
            if (s + num) * 32 > rootlen {
                return Err(Error::DirectoryFull);
            }
        }
        let mut j: usize = 0;
        proof {
            assert(run.take(0) =~= Seq::<u8>::empty());
            assert(written_dir(b0, s as int, run.take(0)) =~= b0);
        }
        while j < k
            invariant
                j <= k,
                handle_ok(*fs, self.handle),
                fs_wf(*fs),
                fs.fat_type == old(fs).fat_type,
                fs.dirs@.len() == old(fs).dirs@.len(),
                b0 == dir_bytes(*old(fs), self.handle),
                run == run_bytes(units@, chk, raw_entry@),
                run.len() == 32 * (k + 1),
                k == num_lfn_entries(units@.len()),
                num == k + 1,
                s + num <= 65536,
                s as int <= num_slots(b0),
                self.handle is Root ==> 32 * (s + num) <= b0.len() && fs.dirs@ == old(fs).dirs@
                    && fs.root@.len() == b0.len(),
                self.handle is Cluster ==> fs.root == old(fs).root && (forall|j2: int|
                    0 <= j2 < old(fs).dirs@.len() && j2 != self.handle->Cluster_0 - 2 ==> fs.dirs@[j2]
                        == #[trigger] old(fs).dirs@[j2]),
                lfn_entries@.len() == k,
                forall|j2: int| 0 <= j2 < k ==> (#[trigger] lfn_entries@[j2])@ == lfn_entry_view(
                    units@,
                    chk,
                    j2,
                ),
                forall|j2: int| 0 <= j2 < k ==> (#[trigger] lfn_entries@[j2])@.units.len() == 13,
                dir_bytes(*fs, self.handle) == written_dir(b0, s as int, run.take(32 * j)),
            decreases k - j,
        {
            let bytes = lfn_entries[j].serialize();
            proof {
                assert(bytes@ =~= run.subrange(32 * (j as int), 32 * (j as int) + 32));
            }
            let ghost before = dir_bytes(*fs, self.handle);
            let wr = write_slot(fs, self.handle, s + j, &bytes);
            proof {
                if wr is Err {
                    assert(32 * ((s + j) as int + 1) <= 32 * (s + num));
                    assert(before.len() >= b0.len());
                    assert(false);
                }
                lemma_write_step(b0, s as int, run, j as int);
                assert(32 * ((s + j) as int) == 32 * (s as int) + 32 * (j as int));
            }
            j = j + 1;
        }
        let bytes = raw_entry.serialize();
        proof {
            assert(bytes@ =~= run.subrange(32 * (k as int), 32 * (k as int) + 32));
        }
        let ghost before = dir_bytes(*fs, self.handle);
        let wr = write_slot(fs, self.handle, s + k, &bytes);
        proof {
            if wr is Err {
                assert(32 * ((s + k) as int + 1) <= 32 * (s + num));
                assert(before.len() >= b0.len());
                assert(false);
            }
            lemma_write_step(b0, s as int, run, k as int);
            assert(run.take(32 * (k as int + 1)) =~= run);
        }
        let entry = DirEntry {
            data: raw_entry,
            lfn: Vec::new(),
            offset_range: (s * 32, (s + num) * 32),
            dir: self.handle,
        };
        Ok(entry)
    }
}

proof fn lemma_scan_run_steps(b1: Seq<u8>, s: int, units: Seq<u16>, chk: u8, j: int)
    requires
        0 <= s,
        1 <= units.len() <= 255,
        0 <= j <= num_lfn_entries(units.len()),
        s + num_lfn_entries(units.len()) + 1 <= num_slots(b1),
        forall|j2: int|
            0 <= j2 < num_lfn_entries(units.len()) ==> slot_view_at(b1, s + j2) == SlotView::Lfn(
                #[trigger] lfn_entry_view(units, chk, j2),
            ),
    ensures
        scan_entry(b1, s, builder_init(), s) == scan_entry(
            b1,
            s + j,
            crate::lfn::process_all(
                builder_init(),
                Seq::new(j as nat, |i: int| lfn_entry_view(units, chk, i)),
            ),
            s,
        ),
    decreases j,
{
    let k = num_lfn_entries(units.len()) as int;
    if j == 0 {
        assert(Seq::new(0, |i: int| lfn_entry_view(units, chk, i)) =~= Seq::<LfnView>::empty());
    } else {
        lemma_scan_run_steps(b1, s, units, chk, j - 1);
        let prev = Seq::new((j - 1) as nat, |i: int| lfn_entry_view(units, chk, i));
        let cur = Seq::new(j as nat, |i: int| lfn_entry_view(units, chk, i));
        let e = lfn_entry_view(units, chk, j - 1);
        assert(cur =~= prev.push(e));
        crate::lfn::lemma_process_all_snoc(builder_init(), prev, e);
        assert(slot_view_at(b1, s + (j - 1)) == SlotView::Lfn(e));
        assert(k <= 20);
        assert(e.order != SLOT_FREE && e.order != SLOT_END);
        assert(scan_entry(b1, s + (j - 1), crate::lfn::process_all(builder_init(), prev), s)
            == scan_entry(
            b1,
            s + j,
            builder_process(crate::lfn::process_all(builder_init(), prev), e),
            s,
        ));
    }
}

/// Writing a logical entry and reading it back: the slots `write_entry`
/// lays down at slot `s` — the LFN run in write order, then the SFN record
/// — are decoded by the entry scan into exactly the written entry: the
/// same SFN payload, and a long name equal to the written code units.  A
/// name ending in a padding unit (`0x0000` or `0xFFFF`) is excluded:
/// truncation could not tell its tail from the padding.
#[verifier::rlimit(100)]
#[verifier::spinoff_prover]
proof fn lemma_run_slot_bytes(b0: Seq<u8>, s: int, units: Seq<u16>, chk: u8, sfn: SfnView, j: int)
    requires
        0 <= s,
        1 <= units.len() <= 255,
        sfn.name.len() == 11,
        0 <= j <= num_lfn_entries(units.len()),
    ensures
        ({
            let k = num_lfn_entries(units.len()) as int;
            let b1 = written_dir(b0, s, run_bytes(units, chk, sfn));
            b1.subrange(32 * (s + j), 32 * (s + j) + 32) == if j < k {
                lfn_bytes(lfn_entry_view(units, chk, j))
            } else {
                sfn_bytes(sfn)
            }
        }),
{
    let k = num_lfn_entries(units.len()) as int;
    let run = run_bytes(units, chk, sfn);
    let b1 = written_dir(b0, s, run);
    assert(run.len() == 32 * (k + 1));
    assert(b1.len() >= 32 * s + 32 * (k + 1));
    if j < k {
        assert(b1.subrange(32 * (s + j), 32 * (s + j) + 32) =~= lfn_bytes(
            lfn_entry_view(units, chk, j),
        ));
    } else {
        assert(b1.subrange(32 * (s + j), 32 * (s + j) + 32) =~= sfn_bytes(sfn));
    }
}

#[verifier::rlimit(100)]
#[verifier::spinoff_prover]
pub proof fn lemma_written_entry_read_back(b0: Seq<u8>, s: int, units: Seq<u16>, sfn: SfnView)
    requires
        slot_wf(SlotView::File(sfn)),
        1 <= units.len() <= 255,
        units.last() != 0 && units.last() != 0xFFFF,
        0 <= s,
        sfn.name[0] != SLOT_END,
        sfn.name[0] != SLOT_FREE,
        sfn.attrs & ATTR_VOLUME_ID == 0,
    ensures
        ({
            let chk = lfn_checksum_spec(sfn.name);
            let k = num_lfn_entries(units.len()) as int;
            let b1 = written_dir(b0, s, run_bytes(units, chk, sfn));
            scan_entry(b1, s, builder_init(), s) == Some(
                EntrySpec { sfn: sfn, name: units, begin: s, end: s + k + 1 },
            )
        }),
{
    let chk = lfn_checksum_spec(sfn.name);
    let k = num_lfn_entries(units.len()) as int;
    let run = run_bytes(units, chk, sfn);
    let b1 = written_dir(b0, s, run);
    let entries = Seq::new(k as nat, |i: int| lfn_entry_view(units, chk, i));
    assert(run.len() == 32 * (k + 1));
    assert(b1.len() >= 32 * s + 32 * (k + 1));
    assert(b1.len() == 32 * num_slots(b1) + b1.len() % 32);
    assert(s + k + 1 <= num_slots(b1));
    assert forall|j: int| 0 <= j < k implies slot_view_at(b1, s + j) == SlotView::Lfn(
        #[trigger] lfn_entry_view(units, chk, j),
    ) by {
        let e = lfn_entry_view(units, chk, j);
        assert(e.units.len() == 13);
        lemma_run_slot_bytes(b0, s, units, chk, sfn, j);
        crate::codec::lemma_parse_slot_bytes(SlotView::Lfn(e));
    }
    lemma_run_slot_bytes(b0, s, units, chk, sfn, k);
    crate::codec::lemma_parse_slot_bytes(SlotView::File(sfn));
    assert(slot_view_at(b1, s + k) == SlotView::File(sfn));
    lemma_scan_run_steps(b1, s, units, chk, k);
    assert(entries =~= Seq::new(k as nat, |i: int| lfn_entry_view(units, chk, i)));
    let st = crate::lfn::process_all(builder_init(), entries);
    crate::lfn::lemma_lfn_round_trip(units, sfn.name);
    assert(builder_name(builder_validate(st, sfn.name)) == units);
    assert(scan_entry(b1, s + k, st, s) == Some(
        EntrySpec { sfn: sfn, name: units, begin: s, end: s + k + 1 },
    ));
}

/// A spurious LFN run is discarded: when the checksum bound to the run
/// does not match the short name that follows, the decoder reports no long
/// name for the entry.
pub proof fn lemma_mismatched_run_discarded(st: BuilderView, short_name: Seq<u8>)
    requires
        lfn_checksum_spec(short_name) != st.chksum,
    ensures
        builder_name(builder_validate(st, short_name)) == Seq::<u16>::empty(),
{
}

/// Every slot of a yielded entry is live: the scan never carries its run
/// start past a free slot without resetting it, so no free slot lies
/// inside a reported entry's slot range.
pub proof fn lemma_yielded_entry_slots_live(b: Seq<u8>, i: int, st: BuilderView, begin: int)
    requires
        begin <= i,
        forall|j: int| begin <= j < i ==> !crate::codec::slot_is_free(#[trigger] slot_view_at(b, j)),
    ensures
        scan_entry(b, i, st, begin) matches Some(e) ==> forall|j: int|
            e.begin <= j < e.end ==> !crate::codec::slot_is_free(#[trigger] slot_view_at(b, j)),
    decreases num_slots(b) - i,
{
    if 0 <= i < num_slots(b) {
        match slot_view_at(b, i) {
            SlotView::File(e) => {
                if e.name[0] == SLOT_END {
                } else if e.name[0] == SLOT_FREE || e.attrs & ATTR_VOLUME_ID != 0 {
                    lemma_yielded_entry_slots_live(b, i + 1, builder_clear(st), i + 1);
                } else {
                }
            },
            SlotView::Lfn(e) => {
                if e.order == SLOT_FREE {
                    lemma_yielded_entry_slots_live(b, i + 1, builder_clear(st), i + 1);
                } else {
                    lemma_yielded_entry_slots_live(b, i + 1, builder_process(st, e), begin);
                }
            },
        }
    }
}

/// A removed entry is never yielded again: `remove` leaves every slot of
/// the entry's range free, and any entry a later scan yields lies entirely
/// on live slots, so its range avoids the freed one.
pub proof fn lemma_removed_entry_not_yielded(b: Seq<u8>, lo: int, hi: int, i: int)
    requires
        0 <= i,
        0 <= lo < hi,
        32 * hi <= b.len(),
    ensures
        scan_entry(freed_range(b, lo, hi), i, builder_init(), i) matches Some(e) ==> e.end <= lo
            || hi <= e.begin,
{
    let bf = freed_range(b, lo, hi);
    assert forall|j: int| lo <= j < hi implies crate::codec::slot_is_free(
        #[trigger] slot_view_at(bf, j),
    ) by {
        assert(bf.subrange(32 * j, 32 * j + 32)[0] == SLOT_FREE);
    }
    lemma_yielded_entry_slots_live(bf, i, builder_init(), i);
    match scan_entry(bf, i, builder_init(), i) {
        Option::Some(e) => {
            lemma_scan_entry_bounds(bf, i, builder_init(), i);
            assert(e.begin < e.end);
            assert(forall|j: int|
                e.begin <= j < e.end ==> !crate::codec::slot_is_free(
                    #[trigger] slot_view_at(bf, j),
                ));
            if e.begin < hi && lo < e.end {
                let j = if lo <= e.begin {
                    e.begin
                } else {
                    lo
                };
                assert(e.begin <= j < e.end && lo <= j < hi);
                assert(crate::codec::slot_is_free(slot_view_at(bf, j)));
                assert(false);
            }
        },
        Option::None => {},
    }
}

/// The directory bytes with every slot in `[lo, hi)` marked free: only the
/// first byte of each of those slots changes.
pub open spec fn freed_range(b: Seq<u8>, lo: int, hi: int) -> Seq<u8> {
    Seq::new(
        b.len(),
        |p: int|
            if 32 * lo <= p < 32 * hi && p % 32 == 0 {
                SLOT_FREE
            } else {
                b[p]
            },
    )
}

/// Mark every slot in `[lo, hi)` free by in-place rewrite: each slot is
/// read, its first byte replaced with the free marker, and written back.
#[verifier::rlimit(100)]
#[verifier::spinoff_prover]
fn free_entry_slots(fs: &mut FileSystem, h: DirHandle, lo: usize, hi: usize)
    requires
        handle_ok(*old(fs), h),
        fs_wf(*old(fs)),
        lo <= hi,
        32 * hi <= dir_bytes(*old(fs), h).len(),
        hi <= 65536,
    ensures
        fs_wf(*final(fs)),
        final(fs).fat_type == old(fs).fat_type,
        final(fs).dirs@.len() == old(fs).dirs@.len(),
        handle_ok(*final(fs), h),
        dir_bytes(*final(fs), h) == freed_range(dir_bytes(*old(fs), h), lo as int, hi as int),
        h is Root ==> final(fs).dirs@ == old(fs).dirs@,
        h is Cluster ==> final(fs).root == old(fs).root && (forall|j: int|
            0 <= j < old(fs).dirs@.len() && j != h->Cluster_0 - 2 ==> final(fs).dirs@[j]
                == #[trigger] old(fs).dirs@[j]),
{
    let ghost b0 = dir_bytes(*fs, h);
    let mut i: usize = lo;
    proof {
        assert(freed_range(b0, lo as int, lo as int) =~= b0);
    }
    while i < hi
        invariant
            lo <= i <= hi <= 65536,
            handle_ok(*fs, h),
            fs_wf(*fs),
            fs.fat_type == old(fs).fat_type,
            fs.dirs@.len() == old(fs).dirs@.len(),
            b0 == dir_bytes(*old(fs), h),
            32 * hi <= b0.len(),
            dir_bytes(*fs, h) == freed_range(b0, lo as int, i as int),
            h is Root ==> fs.dirs@ == old(fs).dirs@,
            h is Cluster ==> fs.root == old(fs).root && (forall|j: int|
                0 <= j < old(fs).dirs@.len() && j != h->Cluster_0 - 2 ==> fs.dirs@[j]
                    == #[trigger] old(fs).dirs@[j]),
        decreases hi - i,
    {
        let ghost cur = dir_bytes(*fs, h);
        let ghost slot_b = cur.subrange(32 * (i as int), 32 * (i as int) + 32);
        let mut raw = DirEntryData::deserialize(dir_ref(fs, h), i * 32);
        proof {
            assert(cur.subrange(i as int * 32, i as int * 32 + 32) == slot_b);
            crate::codec::lemma_slot_bytes_parse(slot_b);
        }
        raw.set_free();
        let bytes = raw.serialize();
        proof {
            crate::codec::lemma_freed_bytes(slot_b);
            assert(bytes@ == slot_b.update(0, SLOT_FREE));
        }
        let wr = write_slot(fs, h, i, &bytes);
        proof {
            if wr is Err {
                assert(32 * (i as int + 1) <= 32 * (hi as int));
                assert(false);
            }
            assert(grown(cur, 32 * (i as int + 1)) == cur);
            assert(dir_bytes(*fs, h) =~= freed_range(b0, lo as int, i + 1));
        }
        i = i + 1;
    }
}

/// The entry is one of the self/parent links `.` or `..`: its effective
/// name (long name when present, short display otherwise) is one or two
/// dots.
pub open spec fn entry_is_dot(s: EntrySpec) -> bool {
    if s.name.len() > 0 {
        s.name == seq![46u16] || s.name == seq![46u16, 46u16]
    } else {
        short_display(s.sfn.name) == seq![46u8] || short_display(s.sfn.name) == seq![46u8, 46u8]
    }
}

/// Every entry of the run is a dot entry.
pub open spec fn entries_all_dots(es: Seq<EntrySpec>) -> bool {
    forall|i: int| 0 <= i < es.len() ==> entry_is_dot(#[trigger] es[i])
}

/// The directory an entry leads to: its first cluster, or the fixed root
/// region when it stores none (as a first-level `..` link does).
pub open spec fn entry_dir_handle(s: SfnView, fat: FatType) -> DirHandle {
    match sfn_first_cluster(s, fat) {
        Option::Some(c) => DirHandle::Cluster(c),
        Option::None => DirHandle::Root,
    }
}

/// The directory a path resolves to, hop by hop: each component is looked
/// up in the current directory, must name a subdirectory, and the walk
/// follows its first cluster (the fixed root region when the entry stores
/// none).
pub open spec fn lookup_dir_spec(fs: FileSystem, h: DirHandle, path: Seq<char>) -> Result<
    DirHandle,
    Error,
>
    decreases path.len()
        via lookup_dir_spec_dec
{
    let name = split_path_spec(path).0;
    let rest = split_path_spec(path).1;
    match find_first(dir_entries_from(dir_bytes(fs, h), 0), name) {
        Option::None => Err(Error::NotFound),
        Option::Some(s) => if s.sfn.attrs & ATTR_DIRECTORY == 0 {
            Err(Error::NotADirectory)
        } else {
            let h2 = match sfn_first_cluster(s.sfn, fs.fat_type) {
                Option::Some(c) => DirHandle::Cluster(c),
                Option::None => DirHandle::Root,
            };
            if !handle_ok(fs, h2) {
                Err(Error::NotFound)
            } else {
                match rest {
                    Option::None => Result::<DirHandle, Error>::Ok(h2),
                    Option::Some(rp) => lookup_dir_spec(fs, h2, rp),
                }
            }
        },
    }
}

#[via_fn]
proof fn lookup_dir_spec_dec(fs: FileSystem, h: DirHandle, path: Seq<char>) {
    crate::path::lemma_split_rest_len(path);
}

/// The file entry a path resolves to: every component but the last must
/// name a directory to descend into; the leaf must name a file.
pub open spec fn lookup_file_spec(fs: FileSystem, h: DirHandle, path: Seq<char>) -> Result<
    EntrySpec,
    Error,
>
    decreases path.len()
        via lookup_file_spec_dec
{
    let name = split_path_spec(path).0;
    let rest = split_path_spec(path).1;
    match find_first(dir_entries_from(dir_bytes(fs, h), 0), name) {
        Option::None => Err(Error::NotFound),
        Option::Some(s) => match rest {
            Option::None => if s.sfn.attrs & ATTR_DIRECTORY != 0 {
                Err(Error::IsADirectory)
            } else {
                Result::<EntrySpec, Error>::Ok(s)
            },
            Option::Some(rp) => if s.sfn.attrs & ATTR_DIRECTORY == 0 {
                Err(Error::NotADirectory)
            } else {
                let h2 = match sfn_first_cluster(s.sfn, fs.fat_type) {
                    Option::Some(c) => DirHandle::Cluster(c),
                    Option::None => DirHandle::Root,
                };
                if !handle_ok(fs, h2) {
                    Err(Error::NotFound)
                } else {
                    lookup_file_spec(fs, h2, rp)
                }
            },
        },
    }
}

#[via_fn]
proof fn lookup_file_spec_dec(fs: FileSystem, h: DirHandle, path: Seq<char>) {
    crate::path::lemma_split_rest_len(path);
}

/// The characters of the `.` (or `..`) link name.
fn dot_chars(double: bool) -> (r: Vec<char>)
    ensures
        r@.len() == if double {
            2int
        } else {
            1int
        },
        forall|i: int| 0 <= i < r@.len() ==> (#[trigger] r@[i]) as u32 == 46,
{
    let mut r: Vec<char> = Vec::new();
    r.push('.');
    if double {
        r.push('.');
    }
    r
}

/// The fresh SFN payload for a new file or directory: name, attributes and
/// first cluster set, size zero.  The timestamp fields stay zero: the
/// clock is an external collaborator.
pub open spec fn fresh_sfn(name: Seq<u8>, attrs: u8, cluster: Option<u32>, fat: FatType) -> SfnView {
    SfnView {
        name: name,
        attrs: attrs,
        reserved_0: 0,
        create_time_0: 0,
        create_time_1: 0,
        create_date: 0,
        access_date: 0,
        first_cluster_hi: if fat is Fat32 {
            ((cluster.unwrap_or(0) as int) / 65536) as u16
        } else {
            0
        },
        modify_time: 0,
        modify_date: 0,
        first_cluster_lo: ((cluster.unwrap_or(0) as int) % 65536) as u16,
        size: 0,
    }
}

impl Dir {
    /// Build the SFN payload for a new entry.
    fn create_sfn_entry(
        &self,
        short_name: Vec<u8>,
        attrs: u8,
        first_cluster: Option<u32>,
        fat_type: FatType,
    ) -> (r: DirFileEntryData)
        ensures
            r@ == fresh_sfn(short_name@, attrs, first_cluster, fat_type),
    {
        let mut raw_entry = DirFileEntryData::new(short_name, attrs);
        raw_entry.set_first_cluster(first_cluster, fat_type);
        raw_entry
    }

    /// The directory holds no entries besides the `.` and `..` links.
    pub fn is_empty(&self, fs: &FileSystem) -> (r: bool)
        requires
            handle_ok(*fs, self.handle),
        ensures
            r == entries_all_dots(dir_entries_from(dir_bytes(*fs, self.handle), 0)),
    {
        let ghost b = dir_bytes(*fs, self.handle);
        let ghost es0 = dir_entries_from(b, 0);
        let mut it = self.iter();
        loop
            invariant_except_break
                handle_ok(*fs, self.handle),
                it.handle == self.handle,
                b == dir_bytes(*fs, self.handle),
                es0 == dir_entries_from(b, 0),
                0 <= it.slot,
                entries_all_dots(es0) == entries_all_dots(dir_entries_from(b, it.slot as int)),
            ensures
                entries_all_dots(es0),
            decreases num_slots(b) + 1 - it.slot,
        {
            let ghost slot_before = it.slot as int;
            let ghost esc = dir_entries_from(b, slot_before);
            let next = it.next(fs);
            match next {
                Option::None => {
                    proof {
                        assert(esc =~= Seq::<EntrySpec>::empty());
                    }
                    break ;
                },
                Option::Some(e) => {
                    let ghost s = scan_entry(b, slot_before, builder_init(), slot_before)->0;
                    proof {
                        assert(esc == seq![s] + dir_entries_from(b, s.end));
                        assert(esc[0] == s);
                        assert(esc.drop_first() =~= dir_entries_from(b, s.end));
                    }
                    let is_dot: bool = if e.lfn.len() > 0 {
                        (e.lfn.len() == 1 && e.lfn[0] == 46) || (e.lfn.len() == 2 && e.lfn[0] == 46
                            && e.lfn[1] == 46)
                    } else {
                        let disp = short_display_bytes(&e.data.name);
                        (disp.len() == 1 && disp[0] == 46) || (disp.len() == 2 && disp[0] == 46
                            && disp[1] == 46)
                    };
                    proof {
                        if e.lfn@.len() > 0 {
                            assert((e.lfn@ =~= seq![46u16]) == (e.lfn@.len() == 1 && e.lfn@[0]
                                == 46));
                            assert((e.lfn@ =~= seq![46u16, 46u16]) == (e.lfn@.len() == 2
                                && e.lfn@[0] == 46 && e.lfn@[1] == 46));
                        } else {
                            let d = short_display(s.sfn.name);
                            assert((d =~= seq![46u8]) == (d.len() == 1 && d[0] == 46));
                            assert((d =~= seq![46u8, 46u8]) == (d.len() == 2 && d[0] == 46 && d[1]
                                == 46));
                        }
                        assert(is_dot == entry_is_dot(s));
                    }
                    if !is_dot {
                        proof {
                            assert(!entries_all_dots(es0)) by {
                                assert(esc[0] == s && !entry_is_dot(s));
                            }
                        }
                        return false;
                    }
                    proof {
                        assert(entries_all_dots(esc) == entries_all_dots(esc.drop_first())) by {
                            assert(forall|j: int|
                                0 <= j < esc.drop_first().len() ==> esc.drop_first()[j] == esc[j
                                    + 1]);
                        }
                    }
                },
            }
        }
        true
    }

    /// Opens an existing subdirectory.
    ///
    /// `path` is a `/`-separated directory path relative to this
    /// directory; every component must name a directory.
    pub fn open_dir(&self, fs: &FileSystem, path: &str) -> (r: Result<Dir, Error>)
        requires
            handle_ok(*fs, self.handle),
        ensures
            r is Ok ==> handle_ok(*fs, r->Ok_0.handle),
            (r is Ok) == (lookup_dir_spec(*fs, self.handle, path@) is Ok),
            r is Ok ==> r->Ok_0.handle == lookup_dir_spec(*fs, self.handle, path@)->Ok_0,
            r is Err ==> r->Err_0 == lookup_dir_spec(*fs, self.handle, path@)->Err_0,
        decreases path@.len(),
    {
        let (name, rest_opt) = split_path(path);
        let cs = crate::path::chars_of(name);
        let mut gen = ShortNameGenerator::new("");
        let e = match self.find_entry(fs, &cs, Some(true), &mut gen) {
            Result::Ok(e) => e,
            Result::Err(err) => {
                return Err(err);
            },
        };
        let h2 = e.to_dir_handle(fs.fat_type);
        if !handle_valid(fs, h2) {
            // the stored cluster points outside the model's directories
            return Err(Error::NotFound);
        }
        match rest_opt {
            Option::Some(rest) => Dir::new(h2).open_dir(fs, rest),
            Option::None => Ok(Dir::new(h2)),
        }
    }

    /// Creates a new file or opens an existing one.
    ///
    /// `path` is a `/`-separated file path relative to this directory.
    /// When the leaf does not exist, a collision-free short name is derived
    /// from it and a new entry with empty attributes and no data is
    /// written at the first-fit position.
    pub fn create_file(&self, fs: &mut FileSystem, path: &str) -> (r: Result<DirEntry, Error>)
        requires
            handle_ok(*old(fs), self.handle),
            fs_wf(*old(fs)),
        ensures
            fs_wf(*final(fs)),
            final(fs).fat_type == old(fs).fat_type,
            final(fs).dirs@.len() == old(fs).dirs@.len(),
            ({
                let (name, rest) = split_path_spec(path@);
                let b0 = dir_bytes(*old(fs), self.handle);
                let es = dir_entries_from(b0, 0);
                let m = find_first(es, name);
                rest is None ==> match m {
                    Option::Some(s) => if s.sfn.attrs & ATTR_DIRECTORY != 0 {
                        r == Err::<DirEntry, Error>(Error::IsADirectory) && *final(fs) == *old(fs)
                    } else {
                        r is Ok && entry_matches(r->Ok_0, s, self.handle) && *final(fs) == *old(fs)
                    },
                    Option::None => {
                        let gres = gen_result(new_spec(name), names_of(es));
                        let units = units_of(name);
                        let k = num_lfn_entries(units.len()) as int;
                        let s0 = first_fit(b0, k + 1);
                        let fits = s0 + k + 1 <= 65536 && (self.handle is Root ==> 32 * (s0 + k
                            + 1) <= b0.len());
                        &&& (r is Ok) == (gres is Some && valid_long_name(name) && fits)
                        &&& ((r is Err && r->Err_0 == Error::AlreadyExists) == (gres is None))
                        &&& (gres is Some && !valid_long_name(name) ==> r == Err::<
                            DirEntry,
                            Error,
                        >(Error::InvalidInput))
                        &&& (gres is Some && valid_long_name(name) && !fits ==> r == Err::<
                            DirEntry,
                            Error,
                        >(Error::DirectoryFull))
                        &&& (r is Ok ==> ({
                            let sn = r->Ok_0.data@.name;
                            &&& sn.len() == 11
                            &&& !names_of(es).contains(sn)
                            &&& r->Ok_0.data@ == fresh_sfn(sn, 0, Option::None, old(fs).fat_type)
                            &&& dir_bytes(*final(fs), self.handle) == written_dir(
                                b0,
                                s0,
                                run_bytes(
                                    units,
                                    lfn_checksum_spec(sn),
                                    fresh_sfn(sn, 0, Option::None, old(fs).fat_type),
                                ),
                            )
                            &&& r->Ok_0.dir == self.handle
                        }))
                        &&& (r is Err ==> *final(fs) == *old(fs) && (r->Err_0
                            == Error::AlreadyExists || r->Err_0 == Error::InvalidInput || r->Err_0
                            == Error::DirectoryFull))
                    },
                }
            }),
        decreases path@.len(),
    {
        let (name, rest_opt) = split_path(path);
        let cs = crate::path::chars_of(name);
        if let Option::Some(rest) = rest_opt {
            let mut gen = ShortNameGenerator::new("");
            let e = match self.find_entry(fs, &cs, Some(true), &mut gen) {
                Result::Ok(e) => e,
                Result::Err(err) => {
                    return Err(err);
                },
            };
            let h2 = e.to_dir_handle(fs.fat_type);
            if !handle_valid(fs, h2) {
                return Err(Error::NotFound);
            }
            return Dir::new(h2).create_file(fs, rest);
        }
        let mut gen = ShortNameGenerator::new(name);
        let ghost g0 = gen@;
        let found = self.find_entry(fs, &cs, Some(false), &mut gen);
        proof {
            if found matches Result::Err(e) && e == Error::NotFound {
                let es = dir_entries_from(dir_bytes(*fs, self.handle), 0);
                lemma_names_before_all(es, cs@);
                lemma_bit_zero();
                assert(gen@.seen =~= names_of(es));
                assert(gen_fed_exactly(gen@, g0, names_of(es)));
                lemma_generate_after_feeding(gen@, g0, names_of(es));
            }
        }
        match found {
            Result::Err(Error::NotFound) => {
                let short_name = match gen.generate() {
                    Result::Ok(sn) => sn,
                    Result::Err(err) => {
                        return Err(err);
                    },
                };
                let fat = fs.fat_type;
                let sfn_entry = self.create_sfn_entry(short_name, 0, Option::None, fat);
                self.write_entry(fs, &cs, sfn_entry)
            },
            Result::Err(err) => Err(err),
            Result::Ok(e) => Ok(e),
        }
    }

    /// Creates a new directory or opens an existing one.
    ///
    /// `path` is a `/`-separated path relative to this directory.  A new
    /// directory takes one freshly allocated cluster, gains an entry with
    /// the directory attribute in the parent, and starts with its `.` and
    /// `..` links (`..` stores the parent's first cluster, or zero under
    /// the root).
    #[verifier::rlimit(100)]
    #[verifier::spinoff_prover]
    pub fn create_dir(&self, fs: &mut FileSystem, path: &str) -> (r: Result<Dir, Error>)
        requires
            handle_ok(*old(fs), self.handle),
            fs_wf(*old(fs)),
        ensures
            fs_wf(*final(fs)),
            final(fs).fat_type == old(fs).fat_type,
            final(fs).dirs@.len() >= old(fs).dirs@.len(),
            r is Ok ==> handle_ok(*final(fs), r->Ok_0.handle),
            ({
                let (name, rest) = split_path_spec(path@);
                let b0 = dir_bytes(*old(fs), self.handle);
                let es = dir_entries_from(b0, 0);
                let m = find_first(es, name);
                &&& (rest is None && m is None ==> ({
                    let gres = gen_result(new_spec(name), names_of(es));
                    let units = units_of(name);
                    let k = num_lfn_entries(units.len()) as int;
                    let s0 = first_fit(b0, k + 1);
                    let fits = s0 + k + 1 <= 65536 && (self.handle is Root ==> 32 * (s0 + k + 1)
                        <= b0.len());
                    let room = old(fs).dirs@.len() < 0xFFFF_0000;
                    (r is Ok) == (room && gres is Some && valid_long_name(name) && fits)
                }))
                &&& (rest is None && m is None && r is Ok ==> ({
                    let c = (old(fs).dirs@.len() + 2) as u32;
                    let units = units_of(name);
                    let k = num_lfn_entries(units.len()) as int;
                    let s0 = first_fit(b0, k + 1);
                    &&& r->Ok_0.handle == DirHandle::Cluster(c)
                    &&& final(fs).dirs@.len() == old(fs).dirs@.len() + 1
                    &&& exists|sn: Seq<u8>|
                        {
                            &&& sn.len() == 11
                            &&& !names_of(es).contains(sn)
                            &&& dir_bytes(*final(fs), self.handle) == written_dir(
                                b0,
                                s0,
                                run_bytes(
                                    units,
                                    lfn_checksum_spec(sn),
                                    fresh_sfn(sn, ATTR_DIRECTORY, Some(c), old(fs).fat_type),
                                ),
                            )
                        }
                    &&& dir_bytes(*final(fs), DirHandle::Cluster(c)) == ({
                        let dot_sfn = fresh_sfn(
                            space_pad(seq![46u8], 11),
                            ATTR_DIRECTORY,
                            Some(c),
                            old(fs).fat_type,
                        );
                        let dotdot_sfn = fresh_sfn(
                            space_pad(seq![46u8, 46u8], 11),
                            ATTR_DIRECTORY,
                            handle_first_cluster(self.handle),
                            old(fs).fat_type,
                        );
                        let b1 = written_dir(
                            Seq::empty(),
                            0,
                            run_bytes(
                                seq![46u16],
                                lfn_checksum_spec(dot_sfn.name),
                                dot_sfn,
                            ),
                        );
                        written_dir(
                            b1,
                            first_fit(b1, 2),
                            run_bytes(
                                seq![46u16, 46u16],
                                lfn_checksum_spec(dotdot_sfn.name),
                                dotdot_sfn,
                            ),
                        )
                    })
                }))
                &&& (rest is None && m is Some ==> *final(fs) == *old(fs) && ({
                    let s = m->0;
                    if s.sfn.attrs & ATTR_DIRECTORY == 0 {
                        r == Err::<Dir, Error>(Error::NotADirectory)
                    } else {
                        let h2 = entry_dir_handle(s.sfn, old(fs).fat_type);
                        if handle_ok(*old(fs), h2) {
                            r is Ok && r->Ok_0.handle == h2
                        } else {
                            r == Err::<Dir, Error>(Error::NotFound)
                        }
                    }
                }))
            }),
        decreases path@.len(),
    {
        let (name, rest_opt) = split_path(path);
        let cs = crate::path::chars_of(name);
        if let Option::Some(rest) = rest_opt {
            let mut gen = ShortNameGenerator::new("");
            let e = match self.find_entry(fs, &cs, Some(true), &mut gen) {
                Result::Ok(e) => e,
                Result::Err(err) => {
                    return Err(err);
                },
            };
            let h2 = e.to_dir_handle(fs.fat_type);
            if !handle_valid(fs, h2) {
                return Err(Error::NotFound);
            }
            return Dir::new(h2).create_dir(fs, rest);
        }
        let mut gen = ShortNameGenerator::new(name);
        let ghost g0 = gen@;
        let found = self.find_entry(fs, &cs, Some(true), &mut gen);
        proof {
            if found matches Result::Err(e) && e == Error::NotFound {
                let es = dir_entries_from(dir_bytes(*fs, self.handle), 0);
                lemma_names_before_all(es, cs@);
                lemma_bit_zero();
                assert(gen@.seen =~= names_of(es));
                assert(gen_fed_exactly(gen@, g0, names_of(es)));
                lemma_generate_after_feeding(gen@, g0, names_of(es));
            }
        }
        match found {
            Result::Err(Error::NotFound) => {
                if fs.dirs.len() >= 0xFFFF_0000 {
                    // the model cannot hold more directory clusters
                    return Err(Error::DirectoryFull);
                }
                // allocate a cluster for the directory's own data
                let cluster = fs.alloc_dir_cluster();
                proof {
                    assert forall|j: int| 0 <= j < fs.dirs@.len() implies (#[trigger] fs.dirs@[j])@.len()
                        <= 0x200000 by {
                        if j < fs.dirs@.len() - 1 {
                            assert(fs.dirs@[j] == old(fs).dirs@[j]);
                        }
                    }
                    assert(fs_wf(*fs));
                    assert(dir_bytes(*fs, self.handle) == dir_bytes(*old(fs), self.handle));
                    assert(dir_bytes(*fs, DirHandle::Cluster(cluster)) =~= Seq::<u8>::empty());
                }
                let short_name = match gen.generate() {
                    Result::Ok(sn) => sn,
                    Result::Err(err) => {
                        return Err(err);
                    },
                };
                let fat = fs.fat_type;
                let sfn_entry = self.create_sfn_entry(
                    short_name,
                    ATTR_DIRECTORY,
                    Some(cluster),
                    fat,
                );
                let entry = match self.write_entry(fs, &cs, sfn_entry) {
                    Result::Ok(e) => e,
                    Result::Err(err) => {
                        return Err(err);
                    },
                };
                proof {
                    assert(dir_bytes(*fs, DirHandle::Cluster(cluster)) =~= Seq::<u8>::empty());
                }
                let dir = Dir::new(DirHandle::Cluster(cluster));
                // the new directory starts with its "." and ".." links;
                // neither write can fail: the names are valid and the fresh
                // directory has room
                let dot_name = dot_chars(false);
                let dot_sfn_name = match ShortNameGenerator::new(".").generate() {
                    Result::Ok(sn) => sn,
                    Result::Err(err) => {
                        proof {
                            reveal_strlit(".");
                            assert("."@ =~= seq!['.']);
                            assert(false);
                        }
                        return Err(err);
                    },
                };
                proof {
                    reveal_strlit(".");
                    assert("."@ =~= seq!['.']);
                    assert(dot_sfn_name@ == space_pad(seq![46u8], 11));
                }
                let dot_sfn = self.create_sfn_entry(dot_sfn_name, ATTR_DIRECTORY, Some(cluster), fat);
                let ghost dot_units = units_of(dot_name@);
                proof {
                    assert(dot_units =~= seq![46u16]);
                    assert(valid_long_name(dot_name@));
                    assert(num_lfn_entries(1) == 1);
                    assert(first_fit(Seq::<u8>::empty(), 2) == 0);
                }
                match dir.write_entry(fs, &dot_name, dot_sfn) {
                    Result::Ok(_) => {},
                    Result::Err(err) => {
                        proof {
                            assert(false);
                        }
                        return Err(err);
                    },
                }
                let ghost b1 = dir_bytes(*fs, DirHandle::Cluster(cluster));
                let dotdot_name = dot_chars(true);
                let dotdot_sfn_name = match ShortNameGenerator::new("..").generate() {
                    Result::Ok(sn) => sn,
                    Result::Err(err) => {
                        proof {
                            reveal_strlit("..");
                            assert(".."@ =~= seq!['.', '.']);
                            assert(false);
                        }
                        return Err(err);
                    },
                };
                proof {
                    reveal_strlit("..");
                    assert(".."@ =~= seq!['.', '.']);
                    assert(dotdot_sfn_name@ == space_pad(seq![46u8, 46u8], 11));
                }
                let parent_cluster = self.first_cluster();
                let dotdot_sfn = self.create_sfn_entry(
                    dotdot_sfn_name,
                    ATTR_DIRECTORY,
                    parent_cluster,
                    fat,
                );
                let ghost dotdot_units = units_of(dotdot_name@);
                proof {
                    assert(dotdot_units =~= seq![46u16, 46u16]);
                    assert(valid_long_name(dotdot_name@));
                    assert(b1.len() == 64);
                    lemma_first_fit_bound(b1, 2);
                }
                match dir.write_entry(fs, &dotdot_name, dotdot_sfn) {
                    Result::Ok(_) => {},
                    Result::Err(err) => {
                        proof {
                            assert(false);
                        }
                        return Err(err);
                    },
                }
                proof {
                    let b0 = dir_bytes(*old(fs), self.handle);
                    let es = dir_entries_from(b0, 0);
                    let units = units_of(cs@);
                    let k = num_lfn_entries(units.len()) as int;
                    let s0 = first_fit(b0, k + 1);
                    let sn = sfn_entry@.name;
                    assert(gen@.seen =~= names_of(es));
                    assert(sn.len() == 11 && !names_of(es).contains(sn) && dir_bytes(
                        *fs,
                        self.handle,
                    ) == written_dir(
                        b0,
                        s0,
                        run_bytes(
                            units,
                            lfn_checksum_spec(sn),
                            fresh_sfn(sn, ATTR_DIRECTORY, Some(cluster), old(fs).fat_type),
                        ),
                    ));
                    assert(b1 == written_dir(
                        Seq::empty(),
                        0,
                        run_bytes(
                            seq![46u16],
                            lfn_checksum_spec(dot_sfn@.name),
                            fresh_sfn(
                                space_pad(seq![46u8], 11),
                                ATTR_DIRECTORY,
                                Some(cluster),
                                old(fs).fat_type,
                            ),
                        ),
                    ));
                    assert(dir_bytes(*fs, DirHandle::Cluster(cluster)) == written_dir(
                        b1,
                        first_fit(b1, 2),
                        run_bytes(
                            seq![46u16, 46u16],
                            lfn_checksum_spec(dotdot_sfn@.name),
                            fresh_sfn(
                                space_pad(seq![46u8, 46u8], 11),
                                ATTR_DIRECTORY,
                                handle_first_cluster(self.handle),
                                old(fs).fat_type,
                            ),
                        ),
                    ));
                }
                Ok(dir)
            },
            Result::Err(err) => Err(err),
            Result::Ok(e) => {
                let h2 = e.to_dir_handle(fs.fat_type);
                if !handle_valid(fs, h2) {
                    return Err(Error::NotFound);
                }
                Ok(Dir::new(h2))
            },
        }
    }

    /// Removes an existing file or directory.
    ///
    /// `path` is a `/`-separated path relative to this directory.  A
    /// directory must hold nothing besides its `.` and `..` links.  Every
    /// slot of the entry's run is marked free in place; the returned first
    /// cluster, if any, is for the external allocator to release.
    pub fn remove(&self, fs: &mut FileSystem, path: &str) -> (r: Result<Option<u32>, Error>)
        requires
            handle_ok(*old(fs), self.handle),
            fs_wf(*old(fs)),
        ensures
            fs_wf(*final(fs)),
            final(fs).fat_type == old(fs).fat_type,
            final(fs).dirs@.len() == old(fs).dirs@.len(),
            r is Err ==> *final(fs) == *old(fs),
            ({
                let (name, rest) = split_path_spec(path@);
                let b0 = dir_bytes(*old(fs), self.handle);
                let m = find_first(dir_entries_from(b0, 0), name);
                rest is None ==> {
                    &&& (m is None ==> r == Err::<Option<u32>, Error>(Error::NotFound))
                    &&& (m is Some ==> ({
                        let s = m->0;
                        let entry_is_dir = s.sfn.attrs & ATTR_DIRECTORY != 0;
                        let h2 = entry_dir_handle(s.sfn, old(fs).fat_type);
                        let child_empty = handle_ok(*old(fs), h2) && entries_all_dots(
                            dir_entries_from(dir_bytes(*old(fs), h2), 0),
                        );
                        &&& (r is Ok) == (!entry_is_dir || child_empty)
                        &&& (entry_is_dir && handle_ok(*old(fs), h2) && !child_empty ==> r
                            == Err::<Option<u32>, Error>(Error::NonEmptyDirectory))
                    }))
                    &&& (r is Ok ==> m is Some && dir_bytes(*final(fs), self.handle)
                        == freed_range(b0, m->0.begin, m->0.end) && r->Ok_0 == sfn_first_cluster(
                        m->0.sfn,
                        old(fs).fat_type,
                    ))
                    &&& (r is Ok ==> (self.handle is Root ==> final(fs).dirs@ == old(fs).dirs@)
                        && (self.handle is Cluster ==> final(fs).root == old(fs).root && (forall|
                        j: int,
                    |
                        0 <= j < old(fs).dirs@.len() && j != self.handle->Cluster_0 - 2
                            ==> final(fs).dirs@[j] == #[trigger] old(fs).dirs@[j])))
                }
            }),
        decreases path@.len(),
    {
        let (name, rest_opt) = split_path(path);
        let cs = crate::path::chars_of(name);
        let mut gen = ShortNameGenerator::new("");
        if let Option::Some(rest) = rest_opt {
            let e = match self.find_entry(fs, &cs, Some(true), &mut gen) {
                Result::Ok(e) => e,
                Result::Err(err) => {
                    return Err(err);
                },
            };
            let h2 = e.to_dir_handle(fs.fat_type);
            if !handle_valid(fs, h2) {
                return Err(Error::NotFound);
            }
            return Dir::new(h2).remove(fs, rest);
        }
        let e = match self.find_entry(fs, &cs, None, &mut gen) {
            Result::Ok(e) => e,
            Result::Err(err) => {
                return Err(err);
            },
        };
        // a directory may only be removed when it has no user entries
        if e.is_dir() {
            let h2 = e.to_dir_handle(fs.fat_type);
            if !handle_valid(fs, h2) {
                return Err(Error::NotFound);
            }
            if !Dir::new(h2).is_empty(fs) {
                return Err(Error::NonEmptyDirectory);
            }
        }
        let first_cluster = e.first_cluster(fs.fat_type);
        let lo = e.offset_range.0 / 32;
        let hi = e.offset_range.1 / 32;
        proof {
            assert(32 * num_slots(dir_bytes(*fs, self.handle)) <= dir_bytes(
                *fs,
                self.handle,
            ).len());
            assert(num_slots(dir_bytes(*fs, self.handle)) <= 65536);
        }
        free_entry_slots(fs, self.handle, lo, hi);
        Ok(first_cluster)
    }

    /// Renames or moves an existing file or directory.
    ///
    /// `src_path` is resolved relative to this directory, `dst_path`
    /// relative to `dst_dir`.  The source entry's slots are marked free
    /// and a new entry with the same payload — size, first cluster and
    /// attributes — is written under the destination name, with a freshly
    /// generated collision-free short name.
    pub fn rename(
        &self,
        fs: &mut FileSystem,
        src_path: &str,
        dst_dir: &Dir,
        dst_path: &str,
    ) -> (r: Result<(), Error>)
        requires
            handle_ok(*old(fs), self.handle),
            handle_ok(*old(fs), dst_dir.handle),
            fs_wf(*old(fs)),
        ensures
            fs_wf(*final(fs)),
            final(fs).fat_type == old(fs).fat_type,
            final(fs).dirs@.len() == old(fs).dirs@.len(),
            ({
                let sname = split_path_spec(src_path@).0;
                let dname = split_path_spec(dst_path@).0;
                let bsrc = dir_bytes(*old(fs), self.handle);
                let m = find_first(dir_entries_from(bsrc, 0), sname);
                split_path_spec(src_path@).1 is None && split_path_spec(dst_path@).1 is None ==> {
                    &&& (m is None ==> r == Err::<(), Error>(Error::NotFound) && *final(fs)
                        == *old(fs))
                    &&& (r is Err && r->Err_0 == Error::AlreadyExists ==> *final(fs) == *old(fs))
                    &&& (m is Some && find_first(
                        dir_entries_from(dir_bytes(*old(fs), dst_dir.handle), 0),
                        dname,
                    ) is Some ==> r == Err::<(), Error>(Error::AlreadyExists))
                    &&& ({
                        let dst_es = dir_entries_from(dir_bytes(*old(fs), dst_dir.handle), 0);
                        let dmatch = find_first(dst_es, dname);
                        let gres = gen_result(new_spec(dname), names_of(dst_es));
                        let src = m->0;
                        let bsrc1 = freed_range(bsrc, src.begin, src.end);
                        let bdst1 = if dst_dir.handle == self.handle {
                            bsrc1
                        } else {
                            dir_bytes(*old(fs), dst_dir.handle)
                        };
                        let units = units_of(dname);
                        let k = num_lfn_entries(units.len()) as int;
                        let s0 = first_fit(bdst1, k + 1);
                        let fits = s0 + k + 1 <= 65536 && (dst_dir.handle is Root ==> 32 * (s0 + k
                            + 1) <= bdst1.len());
                        (r is Ok) == (m is Some && dmatch is None && gres is Some
                            && valid_long_name(dname) && fits)
                    })
                    &&& (r is Ok ==> m is Some && ({
                        let src = m->0;
                        let bsrc1 = freed_range(bsrc, src.begin, src.end);
                        let bdst1 = if dst_dir.handle == self.handle {
                            bsrc1
                        } else {
                            dir_bytes(*old(fs), dst_dir.handle)
                        };
                        let units = units_of(dname);
                        let k = num_lfn_entries(units.len()) as int;
                        let s0 = first_fit(bdst1, k + 1);
                        exists|sn: Seq<u8>|
                            {
                                &&& sn.len() == 11
                                &&& !names_of(
                                    dir_entries_from(dir_bytes(*old(fs), dst_dir.handle), 0),
                                ).contains(sn)
                                &&& dir_bytes(*final(fs), dst_dir.handle) == written_dir(
                                    bdst1,
                                    s0,
                                    run_bytes(
                                        units,
                                        lfn_checksum_spec(sn),
                                        (SfnView { name: sn, ..src.sfn }),
                                    ),
                                )
                                &&& (dst_dir.handle != self.handle ==> dir_bytes(
                                    *final(fs),
                                    self.handle,
                                ) == bsrc1)
                            }
                    }))
                }
            }),
        decreases src_path@.len() + dst_path@.len(),
    {
        let mut gen = ShortNameGenerator::new("");
        // traverse the source path
        let (name, rest_opt) = split_path(src_path);
        if let Option::Some(rest) = rest_opt {
            let cs = crate::path::chars_of(name);
            let e = match self.find_entry(fs, &cs, Some(true), &mut gen) {
                Result::Ok(e) => e,
                Result::Err(err) => {
                    return Err(err);
                },
            };
            let h2 = e.to_dir_handle(fs.fat_type);
            if !handle_valid(fs, h2) {
                return Err(Error::NotFound);
            }
            return Dir::new(h2).rename(fs, rest, dst_dir, dst_path);
        }
        // traverse the destination path
        let (dname, drest_opt) = split_path(dst_path);
        if let Option::Some(drest) = drest_opt {
            let dcs = crate::path::chars_of(dname);
            let e = match dst_dir.find_entry(fs, &dcs, Some(true), &mut gen) {
                Result::Ok(e) => e,
                Result::Err(err) => {
                    return Err(err);
                },
            };
            let h2 = e.to_dir_handle(fs.fat_type);
            if !handle_valid(fs, h2) {
                return Err(Error::NotFound);
            }
            return self.rename(fs, src_path, &Dir::new(h2), drest);
        }
        self.rename_internal(fs, name, dst_dir, dname)
    }

    /// Move one entry: check the destination name is unused, free the
    /// source slots, and write the source payload — size, first cluster
    /// and attributes unchanged — under the destination name with a
    /// freshly generated short name.
    #[verifier::rlimit(100)]
    fn rename_internal(
        &self,
        fs: &mut FileSystem,
        src_name: &str,
        dst_dir: &Dir,
        dst_name: &str,
    ) -> (r: Result<(), Error>)
        requires
            handle_ok(*old(fs), self.handle),
            handle_ok(*old(fs), dst_dir.handle),
            fs_wf(*old(fs)),
        ensures
            fs_wf(*final(fs)),
            final(fs).fat_type == old(fs).fat_type,
            final(fs).dirs@.len() == old(fs).dirs@.len(),
            ({
                let bsrc = dir_bytes(*old(fs), self.handle);
                let m = find_first(dir_entries_from(bsrc, 0), src_name@);
                &&& (m is None ==> r == Err::<(), Error>(Error::NotFound) && *final(fs) == *old(
                    fs,
                ))
                &&& (r is Err && r->Err_0 == Error::AlreadyExists ==> *final(fs) == *old(fs))
                &&& (m is Some && find_first(
                    dir_entries_from(dir_bytes(*old(fs), dst_dir.handle), 0),
                    dst_name@,
                ) is Some ==> r == Err::<(), Error>(Error::AlreadyExists))
                &&& ({
                    let dst_es = dir_entries_from(dir_bytes(*old(fs), dst_dir.handle), 0);
                    let dmatch = find_first(dst_es, dst_name@);
                    let gres = gen_result(new_spec(dst_name@), names_of(dst_es));
                    let src = m->0;
                    let bsrc1 = freed_range(bsrc, src.begin, src.end);
                    let bdst1 = if dst_dir.handle == self.handle {
                        bsrc1
                    } else {
                        dir_bytes(*old(fs), dst_dir.handle)
                    };
                    let units = units_of(dst_name@);
                    let k = num_lfn_entries(units.len()) as int;
                    let s0 = first_fit(bdst1, k + 1);
                    let fits = s0 + k + 1 <= 65536 && (dst_dir.handle is Root ==> 32 * (s0 + k + 1)
                        <= bdst1.len());
                    &&& (r is Ok) == (m is Some && dmatch is None && gres is Some
                        && valid_long_name(dst_name@) && fits)
                    &&& (m is Some && dmatch is None && gres is None ==> r == Err::<
                        (),
                        Error,
                    >(Error::AlreadyExists))
                    &&& (m is Some && dmatch is None && gres is Some && !valid_long_name(dst_name@)
                        ==> r == Err::<(), Error>(Error::InvalidInput))
                    &&& (m is Some && dmatch is None && gres is Some && valid_long_name(dst_name@)
                        && !fits ==> r == Err::<(), Error>(Error::DirectoryFull))
                })
                &&& (r is Ok ==> m is Some && ({
                    let src = m->0;
                    let bsrc1 = freed_range(bsrc, src.begin, src.end);
                    let bdst1 = if dst_dir.handle == self.handle {
                        bsrc1
                    } else {
                        dir_bytes(*old(fs), dst_dir.handle)
                    };
                    let units = units_of(dst_name@);
                    let k = num_lfn_entries(units.len()) as int;
                    let s0 = first_fit(bdst1, k + 1);
                    exists|sn: Seq<u8>|
                        {
                            &&& sn.len() == 11
                            &&& !names_of(
                                dir_entries_from(dir_bytes(*old(fs), dst_dir.handle), 0),
                            ).contains(sn)
                            &&& dir_bytes(*final(fs), dst_dir.handle) == written_dir(
                                bdst1,
                                s0,
                                run_bytes(
                                    units,
                                    lfn_checksum_spec(sn),
                                    (SfnView { name: sn, ..src.sfn }),
                                ),
                            )
                            &&& (dst_dir.handle != self.handle ==> dir_bytes(
                                *final(fs),
                                self.handle,
                            ) == bsrc1)
                        }
                }))
            }),
    {
        let cs = crate::path::chars_of(src_name);
        let mut gen0 = ShortNameGenerator::new("");
        // find the source entry
        let e = match self.find_entry(fs, &cs, None, &mut gen0) {
            Result::Ok(e) => e,
            Result::Err(err) => {
                return Err(err);
            },
        };
        // check that the destination name is unused before touching anything
        let dcs = crate::path::chars_of(dst_name);
        let mut short_name_gen = ShortNameGenerator::new(dst_name);
        let ghost g0d = short_name_gen@;
        let dst_found = dst_dir.find_entry(fs, &dcs, None, &mut short_name_gen);
        match dst_found {
            Result::Err(Error::NotFound) => {},
            Result::Err(err) => {
                return Err(err);
            },
            Result::Ok(_) => {
                return Err(Error::AlreadyExists);
            },
        }
        proof {
            let dst_es = dir_entries_from(dir_bytes(*fs, dst_dir.handle), 0);
            lemma_names_before_all(dst_es, dcs@);
            lemma_bit_zero();
            assert(short_name_gen@.seen =~= names_of(dst_es));
            assert(gen_fed_exactly(short_name_gen@, g0d, names_of(dst_es)));
            lemma_generate_after_feeding(short_name_gen@, g0d, names_of(dst_es));
        }
        let short_name = match short_name_gen.generate() {
            Result::Ok(sn) => sn,
            Result::Err(err) => {
                return Err(err);
            },
        };
        // free the source's long- and short-name slots
        let lo = e.offset_range.0 / 32;
        let hi = e.offset_range.1 / 32;
        proof {
            assert(32 * num_slots(dir_bytes(*fs, self.handle)) <= dir_bytes(
                *fs,
                self.handle,
            ).len());
            assert(num_slots(dir_bytes(*fs, self.handle)) <= 65536);
        }
        free_entry_slots(fs, self.handle, lo, hi);
        // write the payload under the destination name
        let sfn_entry = e.data.renamed(short_name);
        let ghost sn = sfn_entry@.name;
        let ghost bsrc = dir_bytes(*old(fs), self.handle);
        let ghost m = find_first(dir_entries_from(bsrc, 0), src_name@);
        let ghost src = m->0;
        let ghost bsrc1 = freed_range(bsrc, src.begin, src.end);
        let ghost bdst1 = if dst_dir.handle == self.handle {
            bsrc1
        } else {
            dir_bytes(*old(fs), dst_dir.handle)
        };
        proof {
            assert(dir_bytes(*fs, self.handle) == bsrc1);
            assert(dir_bytes(*fs, dst_dir.handle) == bdst1);
        }
        match dst_dir.write_entry(fs, &dcs, sfn_entry) {
            Result::Ok(_) => {
                proof {
                    let units = units_of(dst_name@);
                    let k = num_lfn_entries(units.len()) as int;
                    let s0 = first_fit(bdst1, k + 1);
                    let dst_es = dir_entries_from(dir_bytes(*old(fs), dst_dir.handle), 0);
                    assert(short_name_gen@.seen =~= names_of(dst_es));
                    assert(sn.len() == 11 && !names_of(dst_es).contains(sn) && dir_bytes(
                        *fs,
                        dst_dir.handle,
                    ) == written_dir(
                        bdst1,
                        s0,
                        run_bytes(units, lfn_checksum_spec(sn), (SfnView { name: sn, ..src.sfn })),
                    ) && (dst_dir.handle != self.handle ==> dir_bytes(*fs, self.handle) == bsrc1));
                }
                Ok(())
            },
            Result::Err(err) => Err(err),
        }
    }

    /// Opens an existing file and returns its directory entry.
    ///
    /// `path` is a `/`-separated file path relative to this directory; the
    /// leaf must name a file, every other component a directory.
    pub fn open_file(&self, fs: &FileSystem, path: &str) -> (r: Result<DirEntry, Error>)
        requires
            handle_ok(*fs, self.handle),
        ensures
            (r is Ok) == (lookup_file_spec(*fs, self.handle, path@) is Ok),
            r is Ok ==> ({
                let s = lookup_file_spec(*fs, self.handle, path@)->Ok_0;
                r->Ok_0.data@ == s.sfn && r->Ok_0.lfn@ == s.name
            }),
            r is Err ==> r->Err_0 == lookup_file_spec(*fs, self.handle, path@)->Err_0,
        decreases path@.len(),
    {
        let (name, rest_opt) = split_path(path);
        let cs = crate::path::chars_of(name);
        let mut gen = ShortNameGenerator::new("");
        if let Option::Some(rest) = rest_opt {
            let e = match self.find_entry(fs, &cs, Some(true), &mut gen) {
                Result::Ok(e) => e,
                Result::Err(err) => {
                    return Err(err);
                },
            };
            let h2 = e.to_dir_handle(fs.fat_type);
            if !handle_valid(fs, h2) {
                return Err(Error::NotFound);
            }
            return Dir::new(h2).open_file(fs, rest);
        }
        self.find_entry(fs, &cs, Some(false), &mut gen)
    }
}

} // verus!
