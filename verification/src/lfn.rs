//! VFAT long-file-name (LFN) support: the checksum binding an LFN run to
//! its SFN record, the decoder that aggregates a run of LFN slots into a
//! UTF-16 name, and the encoder that splits a UTF-16 name into ordered LFN
//! slots.
use vstd::prelude::*;
use crate::codec::{DirLfnEntryData, LfnView, LFN_ENTRY_LAST_FLAG, LFN_PART_LEN};

verus! {

/// The LFN checksum of a byte sequence: rotate right one bit, then add the
/// next byte, modulo 256.
pub open spec fn lfn_checksum_spec(name: Seq<u8>) -> u8
    decreases name.len(),
{
    if name.len() == 0 {
        0
    } else {
        let c = lfn_checksum_spec(name.drop_last());
        ((c / 2 + (c % 2) * 128 + name.last()) % 256) as u8
    }
}

/// The sum-rotate checksum over the 11-byte short name that links an LFN
/// run to its SFN record.
pub fn lfn_checksum(short_name: &Vec<u8>) -> (r: u8)
    requires
        short_name@.len() == 11,
    ensures
        r == lfn_checksum_spec(short_name@),
{
    let mut chksum: u8 = 0;
    let mut i: usize = 0;
    while i < 11
        invariant
            i <= 11,
            short_name@.len() == 11,
            chksum == lfn_checksum_spec(short_name@.subrange(0, i as int)),
        decreases 11 - i,
    {
        let rotated: u8 = chksum / 2 + (chksum % 2) * 128;
        chksum = (((rotated as u16) + (short_name[i] as u16)) % 256) as u8;
        proof {
            assert(short_name@.subrange(0, i + 1).drop_last() =~= short_name@.subrange(
                0,
                i as int,
            ));
        }
        i = i + 1;
    }
    proof {
        assert(short_name@.subrange(0, 11) =~= short_name@);
    }
    chksum
}

/// Mathematical state of the LFN decoder.
#[verifier::ext_equal]
pub ghost struct BuilderView {
    pub buf: Seq<u16>,
    pub chksum: u8,
    pub index: u8,
}

/// The decoder's reset state: the buffer is dropped and the expected index
/// cleared; the bound checksum is left as it was.
pub open spec fn builder_clear(b: BuilderView) -> BuilderView {
    BuilderView { buf: Seq::empty(), chksum: b.chksum, index: 0 }
}

/// The buffer resized to `n` code units: kept values first, zero fill after.
pub open spec fn resize_units(s: Seq<u16>, n: nat) -> Seq<u16> {
    Seq::new(n, |i: int| if i < s.len() { s[i] } else { 0u16 })
}

/// The buffer with the 13 code units of `units` written at chunk `ci`.
pub open spec fn write_chunk(s: Seq<u16>, ci: int, units: Seq<u16>) -> Seq<u16> {
    Seq::new(s.len(), |i: int| if 13 * ci <= i < 13 * ci + 13 { units[i - 13 * ci] } else { s[i] })
}

/// One decoder step on an LFN slot, after the rules of the VFAT run format:
/// a zero sequence index resets; the logical-last slot (re)initializes the
/// buffer to `13 * order` zeroed units and binds the checksum; any other
/// slot must descend the index by one under the bound checksum or the run
/// is discarded.  A surviving slot deposits its 13 code units at chunk
/// `order - 1`.
pub open spec fn builder_process(b: BuilderView, e: LfnView) -> BuilderView {
    let is_last = e.order & LFN_ENTRY_LAST_FLAG != 0;
    let index = e.order & 0x1F;
    if index == 0 {
        builder_clear(b)
    } else if is_last {
        BuilderView {
            buf: write_chunk(resize_units(b.buf, 13 * index as nat), index - 1, e.units),
            chksum: e.checksum,
            index: index,
        }
    } else if b.index == 0 || index != b.index - 1 || e.checksum != b.chksum {
        builder_clear(b)
    } else {
        BuilderView {
            buf: write_chunk(b.buf, index - 1, e.units),
            chksum: b.chksum,
            index: (b.index - 1) as u8,
        }
    }
}

/// The decoder state at SFN arrival: the run is kept only when the short
/// name's checksum equals the bound one, else it is discarded as spurious.
pub open spec fn builder_validate(b: BuilderView, short_name: Seq<u8>) -> BuilderView {
    if lfn_checksum_spec(short_name) == b.chksum {
        b
    } else {
        builder_clear(b)
    }
}

/// The sequence with trailing `0x0000` and `0xFFFF` padding units removed.
pub open spec fn truncate_padding(s: Seq<u16>) -> Seq<u16>
    decreases s.len(),
{
    if s.len() > 0 && (s.last() == 0 || s.last() == 0xFFFF) {
        truncate_padding(s.drop_last())
    } else {
        s
    }
}

/// The long name a decoder state denotes: the padded buffer when exactly
/// the whole run arrived (`index == 1`), nothing otherwise.
pub open spec fn builder_name(b: BuilderView) -> Seq<u16> {
    if b.index == 1 {
        truncate_padding(b.buf)
    } else {
        Seq::empty()
    }
}

/// Decoder state that cannot make the exec copy run out of bounds: while a
/// run is open the buffer covers every chunk the remaining indices address.
pub open spec fn builder_wf(b: BuilderView) -> bool {
    b.index > 0 ==> b.buf.len() >= 13 * b.index
}

/// Aggregates a run of LFN slots into the UTF-16 long name, validating
/// ordering and checksum as the VFAT run format demands.
pub struct LongNameBuilder {
    pub buf: Vec<u16>,
    pub chksum: u8,
    pub index: u8,
}

impl View for LongNameBuilder {
    type V = BuilderView;

    open spec fn view(&self) -> BuilderView {
        BuilderView { buf: self.buf@, chksum: self.chksum, index: self.index }
    }
}

impl LongNameBuilder {
    /// A fresh decoder with an empty buffer.
    pub fn new() -> (r: Self)
        ensures
            r@ == (BuilderView { buf: Seq::<u16>::empty(), chksum: 0, index: 0 }),
            builder_wf(r@),
    {
        LongNameBuilder { buf: Vec::new(), chksum: 0, index: 0 }
    }

    /// Drop the collected run.
    pub fn clear(&mut self)
        ensures
            final(self)@ == builder_clear(old(self)@),
            builder_wf(final(self)@),
    {
        self.buf.clear();
        self.index = 0;
    }

    /// Process one LFN slot of the run.
    pub fn process(&mut self, data: &DirLfnEntryData)
        requires
            builder_wf(old(self)@),
            data@.units.len() == 13,
        ensures
            final(self)@ == builder_process(old(self)@, data@),
            builder_wf(final(self)@),
    {
        let ord: u8 = data.order;
        let is_last = (ord & LFN_ENTRY_LAST_FLAG) != 0;
        let index = ord & 0x1F;
        proof {
            assert(index <= 0x1F) by (bit_vector)
                requires
                    index == ord & 0x1F,
            ;
        }
        let ghost target = builder_process(old(self)@, data@);
        if index == 0 {
            self.clear();
            return ;
        }
        if is_last {
            self.index = index;
            self.chksum = data.checksum;
            self.buf.resize(13 * (index as usize), 0);
            proof {
                assert(self.buf@ =~= resize_units(old(self)@.buf, 13 * index as nat));
            }
        } else if self.index == 0 || index != self.index - 1 || data.checksum != self.chksum {
            self.clear();
            return ;
        } else {
            self.index = self.index - 1;
        }
        let pos: usize = 13 * ((index - 1) as usize);
        let ghost before = self.buf@;
        proof {
            assert(target.buf == write_chunk(before, index - 1, data@.units));
            assert(target.index == self.index && target.chksum == self.chksum);
        }
        let mut j: usize = 0;
        while j < 13
            invariant
                j <= 13,
                data@.units.len() == 13,
                pos == 13 * (index - 1),
                pos + 13 <= self.buf@.len(),
                self.buf@.len() == before.len(),
                target.index == self.index,
                target.chksum == self.chksum,
                target.buf == write_chunk(before, index - 1, data@.units),
                target.index <= index,
                forall|i: int|
                    0 <= i < before.len() && !(pos <= i < pos + j) ==> self.buf@[i] == before[i],
                forall|i: int| pos <= i < pos + j ==> self.buf@[i] == data@.units[i - pos],
            decreases 13 - j,
        {
            self.buf.set(pos + j, data.units[j]);
            j = j + 1;
        }
        proof {
            assert(self.buf@ =~= write_chunk(before, index - 1, data@.units));
            assert(self@ =~= target);
        }
    }

    /// On SFN arrival: keep the run only when the short name's checksum
    /// matches the bound one; a mismatching run is spurious and discarded.
    pub fn validate_chksum(&mut self, short_name: &Vec<u8>)
        requires
            builder_wf(old(self)@),
            short_name@.len() == 11,
        ensures
            final(self)@ == builder_validate(old(self)@, short_name@),
            builder_wf(final(self)@),
    {
        let chksum = lfn_checksum(short_name);
        if chksum != self.chksum {
            self.clear();
        }
    }

    /// The decoded long name: the collected buffer, stripped of its padding,
    /// when the run arrived complete; empty otherwise.
    pub fn to_vec(self) -> (r: Vec<u16>)
        ensures
            r@ == builder_name(self@),
    {
        let mut buf = self.buf;
        if self.index == 1 {
            loop
                invariant_except_break
                    truncate_padding(buf@) == builder_name(self@),
                ensures
                    truncate_padding(buf@) == builder_name(self@),
                    buf@.len() == 0 || (buf@.last() != 0 && buf@.last() != 0xFFFF),
                decreases buf@.len(),
            {
                let n = buf.len();
                if n == 0 {
                    break ;
                }
                let last = buf[n - 1];
                if last == 0 || last == 0xFFFF {
                    let ghost prev = buf@;
                    buf.pop();
                    proof {
                        assert(buf@ =~= prev.drop_last());
                    }
                } else {
                    break ;
                }
            }
            proof {
                assert(truncate_padding(buf@) == buf@);
            }
            buf
        } else {
            Vec::new()
        }
    }
}

/// Number of LFN slots a name of `len` code units occupies.
pub open spec fn num_lfn_entries(len: nat) -> nat {
    (len + 12) / 13
}

/// The 13 code units carried by chunk `ci` of a name: the name's units,
/// then one zero terminator when the last chunk has room, then `0xFFFF`
/// fillers.
pub open spec fn lfn_slot_units(name: Seq<u16>, ci: int) -> Seq<u16> {
    Seq::new(
        13,
        |j: int|
            {
                let p = 13 * ci + j;
                if p < name.len() {
                    name[p]
                } else if p == name.len() {
                    0u16
                } else {
                    0xFFFFu16
                }
            },
    )
}

/// The `i`-th LFN slot in write order (physically first = logically last):
/// its order byte counts down from the slot count, carrying the last-flag
/// on the first written slot.
pub open spec fn lfn_entry_view(name: Seq<u16>, checksum: u8, i: int) -> LfnView {
    let num = num_lfn_entries(name.len()) as int;
    LfnView {
        order: if i == 0 {
            (num - i + 64) as u8
        } else {
            (num - i) as u8
        },
        units: lfn_slot_units(name, num - 1 - i),
        entry_type: 0,
        checksum: checksum,
        reserved_0: 0,
    }
}

/// Encode a long name as its run of LFN slots, in write order.  Every slot
/// carries the given checksum; unused unit positions of the logically last
/// chunk hold one zero terminator and `0xFFFF` fillers.
pub fn generate_lfn_entries(name: &Vec<u16>, checksum: u8) -> (r: Vec<DirLfnEntryData>)
    requires
        1 <= name@.len() <= 255,
    ensures
        r@.len() == num_lfn_entries(name@.len()),
        forall|i: int| 0 <= i < r@.len() ==> #[trigger] r@[i]@ == lfn_entry_view(
            name@,
            checksum,
            i,
        ),
        forall|i: int| 0 <= i < r@.len() ==> #[trigger] r@[i]@.units.len() == 13,
{
    let num: usize = (name.len() + 12) / 13;
    let mut r: Vec<DirLfnEntryData> = Vec::new();
    let mut i: usize = 0;
    while i < num
        invariant
            num == num_lfn_entries(name@.len()),
            1 <= name@.len() <= 255,
            i <= num,
            r@.len() == i,
            forall|k: int| 0 <= k < i ==> #[trigger] r@[k]@ == lfn_entry_view(
                name@,
                checksum,
                k,
            ),
        decreases num - i,
    {
        let order: u8 = if i == 0 {
            (num - i + 64) as u8
        } else {
            (num - i) as u8
        };
        let mut entry = DirLfnEntryData::new(order, checksum);
        let ci: usize = num - 1 - i;
        let mut j: usize = 0;
        while j < 13
            invariant
                j <= 13,
                ci == num - 1 - i,
                i < num,
                num == num_lfn_entries(name@.len()),
                1 <= name@.len() <= 255,
                entry@.order == order,
                entry@.checksum == checksum,
                entry@.entry_type == 0,
                entry@.reserved_0 == 0,
                entry@.units.len() == 13,
                forall|k: int| 0 <= k < j ==> entry@.units[k] == lfn_slot_units(name@, ci as int)[k],
            decreases 13 - j,
        {
            let p: usize = 13 * ci + j;
            let unit: u16 = if p < name.len() {
                name[p]
            } else if p == name.len() {
                0
            } else {
                0xFFFF
            };
            entry.units.set(j, unit);
            j = j + 1;
        }
        proof {
            assert(entry@.units =~= lfn_slot_units(name@, ci as int));
            assert(entry@ == lfn_entry_view(name@, checksum, i as int));
        }
        r.push(entry);
        i = i + 1;
    }
    r
}

/// The decoder state after feeding it a sequence of LFN slots in order.
pub open spec fn process_all(b: BuilderView, entries: Seq<LfnView>) -> BuilderView
    decreases entries.len(),
{
    if entries.len() == 0 {
        b
    } else {
        process_all(builder_process(b, entries[0]), entries.drop_first())
    }
}

pub proof fn lemma_process_all_snoc(b: BuilderView, entries: Seq<LfnView>, e: LfnView)
    ensures
        process_all(b, entries.push(e)) == builder_process(process_all(b, entries), e),
    decreases entries.len(),
{
    if entries.len() == 0 {
        assert(entries.push(e)[0] == e);
        assert(entries.push(e).drop_first() =~= Seq::<LfnView>::empty());
        assert(process_all(builder_process(b, e), Seq::<LfnView>::empty()) == builder_process(
            b,
            e,
        ));
        assert(process_all(b, entries) == b);
    } else {
        assert(entries.push(e)[0] == entries[0]);
        assert(entries.push(e).drop_first() =~= entries.drop_first().push(e));
        lemma_process_all_snoc(builder_process(b, entries[0]), entries.drop_first(), e);
    }
}

/// The name's code units laid out over its full run of chunks, with the
/// zero terminator and `0xFFFF` fillers in the last chunk's tail.
pub open spec fn padded_name(name: Seq<u16>) -> Seq<u16> {
    Seq::new(
        13 * num_lfn_entries(name.len()),
        |p: int|
            if p < name.len() {
                name[p]
            } else if p == name.len() {
                0u16
            } else {
                0xFFFFu16
            },
    )
}

/// The decoder state after the first `k` slots of a name's encoded run:
/// the checksum is bound, the next expected index counts down, and the
/// buffer holds the padded name from chunk `num - k` on, zeros below.
spec fn partial_state(name: Seq<u16>, chk: u8, k: int) -> BuilderView {
    let num = num_lfn_entries(name.len()) as int;
    BuilderView {
        buf: Seq::new(
            13 * num as nat,
            |p: int| if p >= 13 * (num - k) { padded_name(name)[p] } else { 0u16 },
        ),
        chksum: chk,
        index: (num - k + 1) as u8,
    }
}

proof fn lemma_order_bits(n: u8)
    requires
        1 <= n <= 20,
    ensures
        (n + 64) as u8 & 0x1F == n,
        (n + 64) as u8 & LFN_ENTRY_LAST_FLAG != 0,
        n & 0x1F == n,
        n & LFN_ENTRY_LAST_FLAG == 0,
{
    assert(((n + 64) as u8 & 0x1F == n) && ((n + 64) as u8 & 0x40 != 0) && (n & 0x1F == n) && (n
        & 0x40 == 0)) by (bit_vector)
        requires
            1 <= n <= 20,
    ;
}

proof fn lemma_encode_prefix(name: Seq<u16>, chk: u8, k: int)
    requires
        1 <= name.len() <= 255,
        1 <= k <= num_lfn_entries(name.len()),
    ensures
        process_all(
            BuilderView { buf: Seq::empty(), chksum: 0, index: 0 },
            Seq::new(k as nat, |i: int| lfn_entry_view(name, chk, i)),
        ) == partial_state(name, chk, k),
    decreases k,
{
    let num = num_lfn_entries(name.len()) as int;
    let b0 = BuilderView { buf: Seq::empty(), chksum: 0, index: 0 };
    assert(num <= 20);
    if k == 1 {
        let e0 = lfn_entry_view(name, chk, 0);
        let entries = Seq::new(1, |i: int| lfn_entry_view(name, chk, i));
        assert(entries.drop_first() =~= Seq::<LfnView>::empty());
        assert(entries[0] == e0);
        assert(process_all(builder_process(b0, e0), Seq::<LfnView>::empty()) == builder_process(
            b0,
            e0,
        ));
        assert(process_all(b0, entries) == builder_process(b0, e0));
        lemma_order_bits(num as u8);
        assert(e0.order == (num + 64) as u8);
        assert(e0.order & 0x1F == num && e0.order & LFN_ENTRY_LAST_FLAG != 0);
        assert(builder_process(b0, e0).buf =~= partial_state(name, chk, 1).buf);
        assert(builder_process(b0, e0) =~= partial_state(name, chk, 1));
    } else {
        lemma_encode_prefix(name, chk, k - 1);
        let prev = partial_state(name, chk, k - 1);
        let ek = lfn_entry_view(name, chk, k - 1);
        let entries = Seq::new(k as nat, |i: int| lfn_entry_view(name, chk, i));
        assert(entries =~= Seq::new((k - 1) as nat, |i: int| lfn_entry_view(name, chk, i)).push(
            ek,
        ));
        lemma_process_all_snoc(
            b0,
            Seq::new((k - 1) as nat, |i: int| lfn_entry_view(name, chk, i)),
            ek,
        );
        lemma_order_bits((num - k + 1) as u8);
        assert(ek.order == (num - k + 1) as u8);
        assert(ek.order & 0x1F == num - k + 1 && ek.order & LFN_ENTRY_LAST_FLAG == 0);
        assert(prev.index == (num - k + 2) as u8);
        assert(builder_process(prev, ek).buf =~= partial_state(name, chk, k).buf);
        assert(builder_process(prev, ek) =~= partial_state(name, chk, k));
    }
}

proof fn lemma_truncate_padding_suffix(s: Seq<u16>, t: Seq<u16>)
    requires
        s.len() > 0 ==> (s.last() != 0 && s.last() != 0xFFFF),
        forall|i: int| 0 <= i < t.len() ==> t[i] == 0 || t[i] == 0xFFFF,
    ensures
        truncate_padding(s + t) == s,
    decreases t.len(),
{
    if t.len() == 0 {
        assert(s + t =~= s);
    } else {
        assert((s + t).last() == t.last());
        assert((s + t).drop_last() =~= s + t.drop_last());
        lemma_truncate_padding_suffix(s, t.drop_last());
    }
}

/// Round trip of the LFN run format: feed the encoder's slots, in write
/// order, to a fresh decoder, then validate them against the short name the
/// checksum was drawn from; the decoder returns exactly the original long
/// name.  Decoding is stated over `process_all`/`builder_validate`, the
/// specs the executable decoder is proved to follow.  A name whose last
/// unit is a padding value (`0x0000` or `0xFFFF`) is excluded: truncation
/// could not tell its tail from the padding.
pub proof fn lemma_lfn_round_trip(name: Seq<u16>, short_name: Seq<u8>)
    requires
        1 <= name.len() <= 255,
        name.last() != 0 && name.last() != 0xFFFF,
        short_name.len() == 11,
    ensures
        ({
            let chk = lfn_checksum_spec(short_name);
            let entries = Seq::new(
                num_lfn_entries(name.len()) as int as nat,
                |i: int| lfn_entry_view(name, chk, i),
            );
            let b = process_all(
                BuilderView { buf: Seq::empty(), chksum: 0, index: 0 },
                entries,
            );
            builder_name(builder_validate(b, short_name)) == name
        }),
{
    let chk = lfn_checksum_spec(short_name);
    let num = num_lfn_entries(name.len()) as int;
    lemma_encode_prefix(name, chk, num);
    let b = partial_state(name, chk, num);
    assert(b.index == 1);
    assert(b.chksum == chk);
    assert(builder_validate(b, short_name) == b);
    assert(b.buf =~= padded_name(name));
    let tail = Seq::new((13 * num - name.len()) as nat, |i: int| if i == 0 { 0u16 } else { 0xFFFFu16 });
    assert(padded_name(name) =~= name + tail);
    lemma_truncate_padding_suffix(name, tail);
    assert(builder_name(b) == truncate_padding(padded_name(name)));
}

} // verus!
