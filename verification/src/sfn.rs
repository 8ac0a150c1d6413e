//! Short-name generation: derive an 11-byte 8.3 name from a long name and
//! resolve collisions against the names already present in the directory.
//!
//! The generator keeps, as ghost state, the set of every short name fed to
//! `add_existing`; `generate` is proved to return a name outside that set,
//! or to fail.
use vstd::prelude::*;
use crate::Error;
use crate::path::chars_of;

verus! {

/// Characters kept as-is by the 8.3 conversion (before upper-casing).
pub open spec fn allowed_sfn_char(c: char) -> bool {
    ||| 65 <= c as u32 <= 90
    ||| 97 <= c as u32 <= 122
    ||| 48 <= c as u32 <= 57
    ||| c as u32 == 33
    ||| c as u32 == 35
    ||| c as u32 == 36
    ||| c as u32 == 37
    ||| c as u32 == 38
    ||| c as u32 == 39
    ||| c as u32 == 40
    ||| c as u32 == 41
    ||| c as u32 == 45
    ||| c as u32 == 64
    ||| c as u32 == 94
    ||| c as u32 == 95
    ||| c as u32 == 96
    ||| c as u32 == 123
    ||| c as u32 == 125
    ||| c as u32 == 126
}

/// The byte stored for a kept character: its ASCII upper-case form.
pub open spec fn upper_byte(c: char) -> u8 {
    if 97 <= c as u32 <= 122 {
        (c as u32 - 32) as u8
    } else {
        (c as u32) as u8
    }
}

/// Result of converting one name part into its 8.3 slot.
#[verifier::ext_equal]
pub ghost struct PartResult {
    /// The bytes emitted (at most the slot's capacity).
    pub bytes: Seq<u8>,
    /// Whether the whole part fit the slot.
    pub fits: bool,
    /// Whether any character was dropped or replaced.
    pub lossy: bool,
}

/// Convert one part of a long name into at most `cap` bytes of an 8.3 slot:
/// spaces and dots are dropped (lossy), allowed characters are upper-cased,
/// anything else becomes an underscore (lossy).  A part that still has
/// characters once the slot is full does not fit.
pub open spec fn copy_part(src: Seq<char>, cap: int) -> PartResult
    decreases src.len(),
{
    if src.len() == 0 {
        PartResult { bytes: Seq::empty(), fits: true, lossy: false }
    } else if cap == 0 {
        PartResult { bytes: Seq::empty(), fits: false, lossy: false }
    } else {
        let c = src[0];
        if c as u32 == 32 || c as u32 == 46 {
            let rest = copy_part(src.drop_first(), cap);
            PartResult { bytes: rest.bytes, fits: rest.fits, lossy: true }
        } else {
            let fixed: u8 = if allowed_sfn_char(c) {
                upper_byte(c)
            } else {
                95
            };
            let rest = copy_part(src.drop_first(), cap - 1);
            PartResult {
                bytes: seq![fixed] + rest.bytes,
                fits: rest.fits,
                lossy: !allowed_sfn_char(c) || rest.lossy,
            }
        }
    }
}

pub proof fn lemma_copy_part_len(src: Seq<char>, cap: int)
    requires
        cap >= 0,
    ensures
        copy_part(src, cap).bytes.len() <= cap,
    decreases src.len(),
{
    if src.len() > 0 && cap > 0 {
        let c = src[0];
        if c as u32 == 32 || c as u32 == 46 {
            lemma_copy_part_len(src.drop_first(), cap);
        } else {
            lemma_copy_part_len(src.drop_first(), cap - 1);
        }
    } else if src.len() > 0 {
        lemma_copy_part_len(src.drop_first(), cap);
    }
}

/// `b` space-padded on the right to `n` bytes.
pub open spec fn space_pad(b: Seq<u8>, n: int) -> Seq<u8> {
    b + Seq::new((n - b.len()) as nat, |i: int| 32u8)
}

/// Index of the last dot of `s`, or -1 when `s` has none.
pub open spec fn last_dot(s: Seq<char>) -> int
    decreases s.len(),
{
    if s.len() == 0 {
        -1
    } else if s.last() as u32 == 46 {
        s.len() - 1
    } else {
        last_dot(s.drop_last())
    }
}

/// Result of deriving the 8.3 base form of a long name.
#[verifier::ext_equal]
pub ghost struct PhaseA {
    /// The 11-byte space-padded candidate.
    pub short_name: Seq<u8>,
    /// Bytes emitted into the basename slot before padding.
    pub basename_len: int,
    /// Whether both parts fit their slots.
    pub fits: bool,
    /// Whether any character was dropped or replaced.
    pub lossy: bool,
}

/// Derive the 8.3 base form: split at the last dot (basename to the 8-byte
/// slot, extension to the 3-byte slot; no dot means no extension) and
/// convert each part.  The dot-only names `.` and `..` survive unmodified.
pub open spec fn phase_a(name: Seq<char>) -> PhaseA {
    if name.len() == 1 && name[0] as u32 == 46 {
        PhaseA { short_name: space_pad(seq![46u8], 11), basename_len: 1, fits: true, lossy: false }
    } else if name.len() == 2 && name[0] as u32 == 46 && name[1] as u32 == 46 {
        PhaseA {
            short_name: space_pad(seq![46u8, 46u8], 11),
            basename_len: 2,
            fits: true,
            lossy: false,
        }
    } else {
        let ld = last_dot(name);
        if ld >= 0 {
            let b = copy_part(name.take(ld), 8);
            let e = copy_part(name.skip(ld + 1), 3);
            PhaseA {
                short_name: space_pad(b.bytes, 8) + space_pad(e.bytes, 3),
                basename_len: b.bytes.len() as int,
                fits: b.fits && e.fits,
                lossy: b.lossy || e.lossy,
            }
        } else {
            let b = copy_part(name, 8);
            PhaseA {
                short_name: space_pad(b.bytes, 11),
                basename_len: b.bytes.len() as int,
                fits: b.fits,
                lossy: b.lossy,
            }
        }
    }
}

/// The BSD-style 16-bit rotate checksum of a long name: rotate right one
/// bit, add the next code point, modulo 2^16.
pub open spec fn sfn_checksum_spec(s: Seq<char>) -> u16
    decreases s.len(),
{
    if s.len() == 0 {
        0
    } else {
        let c = sfn_checksum_spec(s.drop_last());
        ((c / 2 + (c % 2) * 32768 + (s.last() as u32) % 65536) % 65536) as u16
    }
}

/// Bit `d` of a bitmap.
pub open spec fn bit_set(bm: u16, d: u16) -> bool {
    bm & (1u16 << d) != 0
}

/// No bit of a zero bitmap is set.
pub proof fn lemma_bit_zero()
    ensures
        forall|d: u16| !bit_set(0u16, d),
{
    assert(forall|d: u16| 0u16 & (1u16 << d) == 0) by (bit_vector);
}

fn bit_get(bm: u16, d: u16) -> (r: bool)
    requires
        d < 16,
    ensures
        r == bit_set(bm, d),
{
    bm & (1u16 << d) != 0
}

fn bit_or(bm: u16, d: u16) -> (r: u16)
    requires
        d < 16,
    ensures
        forall|k: u16| k < 16 ==> bit_set(r, k) == (bit_set(bm, k) || k == d),
{
    let r = bm | (1u16 << d);
    proof {
        assert(forall|k: u16|
            k < 16 ==> ((bm | (1u16 << d)) & (1u16 << k) != 0) == ((bm & (1u16 << k) != 0) || k
                == d)) by (bit_vector)
            requires
                d < 16,
        ;
    }
    r
}

/// Upper-case hex digit `j` (0 = most significant nibble) of a 16-bit value.
pub open spec fn hex_digit(x: u16, j: int) -> u8 {
    let nibble = if j == 0 {
        x / 4096
    } else if j == 1 {
        (x / 256) % 16
    } else if j == 2 {
        (x / 16) % 16
    } else {
        x % 16
    };
    if nibble < 10 {
        (48 + nibble) as u8
    } else {
        (55 + nibble) as u8
    }
}

/// Numeric value of one hex-digit byte (either case), if it is one.
pub open spec fn hex_val(b: u8) -> Option<u16> {
    if 48 <= b <= 57 {
        Some((b - 48) as u16)
    } else if 65 <= b <= 70 {
        Some((b - 55) as u16)
    } else if 97 <= b <= 102 {
        Some((b - 87) as u16)
    } else {
        None
    }
}

/// Value of four hex-digit bytes, if all four are hex digits.
pub open spec fn hex_parse4(b: Seq<u8>) -> Option<u16> {
    if hex_val(b[0]) is Some && hex_val(b[1]) is Some && hex_val(b[2]) is Some && hex_val(b[3])
        is Some {
        Some(
            (hex_val(b[0])->0 * 4096 + hex_val(b[1])->0 * 256 + hex_val(b[2])->0 * 16 + hex_val(
                b[3],
            )->0) as u16,
        )
    } else {
        None
    }
}

/// Mathematical state of the short-name generator.
#[verifier::ext_equal]
pub ghost struct GenView {
    pub chksum: u16,
    pub long_prefix_bitmap: u16,
    pub prefix_chksum_bitmap: u16,
    pub name_fits: bool,
    pub lossy_conv: bool,
    pub exact_match: bool,
    pub basename_len: int,
    pub short_name: Seq<u8>,
    /// Every short name fed through `add_existing`.
    pub seen: Set<Seq<u8>>,
}

/// The candidate `P~d` + extension: the first `min(basename_len, 6)` bytes
/// of the derived base, a tilde, the digit, space padding, and the derived
/// extension.
pub open spec fn long_form(g: GenView, d: u16) -> Seq<u8> {
    let p = if g.basename_len < 6 {
        g.basename_len
    } else {
        6
    };
    Seq::new(
        11,
        |i: int|
            if i < p {
                g.short_name[i]
            } else if i == p {
                126u8
            } else if i == p + 1 {
                (48 + d) as u8
            } else if i < 8 {
                32u8
            } else {
                g.short_name[i]
            },
    )
}

/// The candidate `P HHHH ~d` + extension: the first `min(basename_len, 2)`
/// bytes of the base, the four upper-case hex digits of the checksum, a
/// tilde, the digit, and the derived extension.
pub open spec fn chksum_form(g: GenView, d: u16) -> Seq<u8> {
    let p = if g.basename_len < 2 {
        g.basename_len
    } else {
        2
    };
    Seq::new(
        11,
        |i: int|
            if i < p {
                g.short_name[i]
            } else if i < p + 4 {
                hex_digit(g.chksum, i - p)
            } else if i == p + 4 {
                126u8
            } else if i == p + 5 {
                (48 + d) as u8
            } else if i < 8 {
                32u8
            } else {
                g.short_name[i]
            },
    )
}

/// `n` collides with the `P~d` + extension form for digit `d`.
pub open spec fn long_pattern(g: GenView, n: Seq<u8>, d: u16) -> bool {
    let p = if g.basename_len < 6 {
        g.basename_len
    } else {
        6
    };
    &&& n.len() == 11
    &&& n.subrange(0, p) == g.short_name.subrange(0, p)
    &&& n[p] == 126
    &&& n[p + 1] == 48 + d
    &&& d <= 9
    &&& n.subrange(8, 11) == g.short_name.subrange(8, 11)
}

/// `n` collides with the `P HHHH ~d` + extension form for digit `d`.
pub open spec fn chksum_pattern(g: GenView, n: Seq<u8>, d: u16) -> bool {
    let p = if g.basename_len < 2 {
        g.basename_len
    } else {
        2
    };
    &&& n.len() == 11
    &&& n.subrange(0, p) == g.short_name.subrange(0, p)
    &&& n[p + 4] == 126
    &&& n[p + 5] == 48 + d
    &&& d <= 9
    &&& hex_parse4(n.subrange(p, p + 4)) == Some(g.chksum)
    &&& n.subrange(8, 11) == g.short_name.subrange(8, 11)
}

/// Invariant of the generator: the derived name is 11 bytes, and the three
/// collision trackers cover the seen set — a clear bit or flag witnesses
/// that no seen name collides with the corresponding candidate form.
pub open spec fn gen_wf(g: GenView) -> bool {
    &&& g.short_name.len() == 11
    &&& 0 <= g.basename_len <= 8
    &&& (!g.exact_match ==> !g.seen.contains(g.short_name))
    &&& (forall|d: u16, n: Seq<u8>|
        d < 16 && !#[trigger] bit_set(g.long_prefix_bitmap, d) && #[trigger] g.seen.contains(n)
            ==> !long_pattern(g, n, d))
    &&& (forall|d: u16, n: Seq<u8>|
        d < 16 && !#[trigger] bit_set(g.prefix_chksum_bitmap, d) && #[trigger] g.seen.contains(n)
            ==> !chksum_pattern(g, n, d))
}

/// The generator state derived from a long name, before any existing names
/// are added.
pub open spec fn new_spec(name: Seq<char>) -> GenView {
    let a = phase_a(name);
    GenView {
        chksum: sfn_checksum_spec(name),
        long_prefix_bitmap: 0,
        prefix_chksum_bitmap: 0,
        name_fits: a.fits,
        lossy_conv: a.lossy,
        exact_match: false,
        basename_len: a.basename_len,
        short_name: a.short_name,
        seen: Set::empty(),
    }
}

/// First digit in `lo..hi` whose bit is clear in `bm`, or `hi` when all are
/// set.
pub open spec fn first_clear(bm: u16, lo: u16, hi: u16) -> u16
    decreases hi - lo,
{
    if lo >= hi {
        hi
    } else if !bit_set(bm, lo) {
        lo
    } else {
        first_clear(bm, (lo + 1) as u16, hi)
    }
}

/// The generation policy: the derived name itself when the conversion was
/// faithful, it fit, and nothing collides; else the first free `P~d` form
/// for digits 1..=4; else the first free checksum form for digits 1..=9;
/// else nothing.
pub open spec fn generate_spec(g: GenView) -> Option<Seq<u8>> {
    if !g.lossy_conv && g.name_fits && !g.exact_match {
        Some(g.short_name)
    } else {
        let d1 = first_clear(g.long_prefix_bitmap, 1, 5);
        if d1 < 5 {
            Some(long_form(g, d1))
        } else {
            let d2 = first_clear(g.prefix_chksum_bitmap, 1, 10);
            if d2 < 10 {
                Some(chksum_form(g, d2))
            } else {
                None
            }
        }
    }
}

/// Some name in `names` collides with the long-prefix form for digit `d`.
pub open spec fn long_collision(g: GenView, names: Set<Seq<u8>>, d: u16) -> bool {
    exists|n: Seq<u8>| #[trigger] names.contains(n) && long_pattern(g, n, d)
}

/// Some name in `names` collides with the checksum form for digit `d`.
pub open spec fn chksum_collision(g: GenView, names: Set<Seq<u8>>, d: u16) -> bool {
    exists|n: Seq<u8>| #[trigger] names.contains(n) && chksum_pattern(g, n, d)
}

/// First digit in `d..hi` whose candidate form collides with no name in
/// `names`, or `hi` when every digit collides.
pub open spec fn first_free_form(g: GenView, names: Set<Seq<u8>>, d: u16, hi: u16, chks: bool) -> u16
    decreases hi - d,
{
    if d >= hi {
        hi
    } else if (if chks {
        chksum_collision(g, names, d)
    } else {
        long_collision(g, names, d)
    }) {
        first_free_form(g, names, (d + 1) as u16, hi, chks)
    } else {
        d
    }
}

/// What `generate` returns once a generator in base state `g` has absorbed
/// exactly the short names in `names`: the base candidate when the
/// conversion was faithful, it fit and no name equals it; else the first
/// collision-free `P~d` form for digits 1..=4; else the first
/// collision-free checksum form for digits 1..=9; else nothing.
pub open spec fn gen_result(g: GenView, names: Set<Seq<u8>>) -> Option<Seq<u8>> {
    if !g.lossy_conv && g.name_fits && !names.contains(g.short_name) {
        Some(g.short_name)
    } else {
        let d1 = first_free_form(g, names, 1, 5, false);
        if d1 < 5 {
            Some(long_form(g, d1))
        } else {
            let d2 = first_free_form(g, names, 1, 10, true);
            if d2 < 10 {
                Some(chksum_form(g, d2))
            } else {
                None
            }
        }
    }
}

/// A generator state whose collision trackers record exactly the
/// collisions of `names` against base state `g0`.
pub open spec fn gen_fed_exactly(g: GenView, g0: GenView, names: Set<Seq<u8>>) -> bool {
    &&& g.short_name == g0.short_name
    &&& g.basename_len == g0.basename_len
    &&& g.chksum == g0.chksum
    &&& g.name_fits == g0.name_fits
    &&& g.lossy_conv == g0.lossy_conv
    &&& g.exact_match == names.contains(g0.short_name)
    &&& (forall|d: u16|
        d < 16 ==> #[trigger] bit_set(g.long_prefix_bitmap, d) == long_collision(g0, names, d))
    &&& (forall|d: u16|
        d < 16 ==> #[trigger] bit_set(g.prefix_chksum_bitmap, d) == chksum_collision(g0, names, d))
}

proof fn lemma_first_clear_is_first_free(
    g: GenView,
    g0: GenView,
    names: Set<Seq<u8>>,
    d: u16,
    hi: u16,
    chks: bool,
)
    requires
        gen_fed_exactly(g, g0, names),
        d <= hi <= 10,
    ensures
        first_clear(
            if chks {
                g.prefix_chksum_bitmap
            } else {
                g.long_prefix_bitmap
            },
            d,
            hi,
        ) == first_free_form(g0, names, d, hi, chks),
    decreases hi - d,
{
    assert forall|n: Seq<u8>, dd: u16|
        long_pattern(g, n, dd) == long_pattern(g0, n, dd) && chksum_pattern(g, n, dd)
            == chksum_pattern(g0, n, dd) by {}
    if d < hi {
        lemma_first_clear_is_first_free(g, g0, names, (d + 1) as u16, hi, chks);
    }
}

/// What `generate` returns is a function of the base state and the set of
/// absorbed names alone.
pub proof fn lemma_generate_after_feeding(g: GenView, g0: GenView, names: Set<Seq<u8>>)
    requires
        gen_fed_exactly(g, g0, names),
    ensures
        generate_spec(g) == gen_result(g0, names),
{
    lemma_first_clear_is_first_free(g, g0, names, 1, 5, false);
    lemma_first_clear_is_first_free(g, g0, names, 1, 10, true);
    if first_clear(g.long_prefix_bitmap, 1, 5) < 5 {
        assert(long_form(g, first_clear(g.long_prefix_bitmap, 1, 5)) =~= long_form(
            g0,
            first_free_form(g0, names, 1, 5, false),
        ));
    } else if first_clear(g.prefix_chksum_bitmap, 1, 10) < 10 {
        assert(chksum_form(g, first_clear(g.prefix_chksum_bitmap, 1, 10)) =~= chksum_form(
            g0,
            first_free_form(g0, names, 1, 10, true),
        ));
    }
}

/// Derives a unique 11-byte 8.3 short name from a long name: phase A builds
/// the base candidate, `add_existing` absorbs the directory's present short
/// names, and `generate` picks a name that collides with none of them.
pub struct ShortNameGenerator {
    pub chksum: u16,
    pub long_prefix_bitmap: u16,
    pub prefix_chksum_bitmap: u16,
    pub name_fits: bool,
    pub lossy_conv: bool,
    pub exact_match: bool,
    pub basename_len: u8,
    pub short_name: Vec<u8>,
    /// Ghost record of every name fed through `add_existing`.
    pub seen: Ghost<Set<Seq<u8>>>,
}

impl View for ShortNameGenerator {
    type V = GenView;

    open spec fn view(&self) -> GenView {
        GenView {
            chksum: self.chksum,
            long_prefix_bitmap: self.long_prefix_bitmap,
            prefix_chksum_bitmap: self.prefix_chksum_bitmap,
            name_fits: self.name_fits,
            lossy_conv: self.lossy_conv,
            exact_match: self.exact_match,
            basename_len: self.basename_len as int,
            short_name: self.short_name@,
            seen: self.seen@,
        }
    }
}

/// How one processed prefix combines with the conversion of the rest of a
/// part.
pub open spec fn part_combine(bytes: Seq<u8>, lossy: bool, rest: PartResult) -> PartResult {
    PartResult { bytes: bytes + rest.bytes, fits: rest.fits, lossy: lossy || rest.lossy }
}

/// A copy of a byte vector.
pub fn clone_bytes(v: &Vec<u8>) -> (r: Vec<u8>)
    ensures
        r@ == v@,
{
    let mut r: Vec<u8> = Vec::new();
    let mut i: usize = 0;
    while i < v.len()
        invariant
            i <= v@.len(),
            r@ == v@.subrange(0, i as int),
        decreases v@.len() - i,
    {
        r.push(v[i]);
        i = i + 1;
    }
    proof {
        assert(r@ =~= v@);
    }
    r
}

/// `len` bytes of `a` starting at `astart` equal `len` bytes of `b`
/// starting at `bstart`.
fn bytes_eq(a: &Vec<u8>, astart: usize, b: &Vec<u8>, bstart: usize, len: usize) -> (r: bool)
    requires
        astart + len <= a@.len(),
        bstart + len <= b@.len(),
    ensures
        r == (a@.subrange(astart as int, astart + len) == b@.subrange(bstart as int, bstart
            + len)),
{
    let ghost sa = a@.subrange(astart as int, astart + len);
    let ghost sb = b@.subrange(bstart as int, bstart + len);
    let alen = a.len();
    let blen = b.len();
    let mut i: usize = 0;
    while i < len
        invariant
            i <= len,
            astart + len <= a@.len() <= usize::MAX,
            bstart + len <= b@.len() <= usize::MAX,
            sa == a@.subrange(astart as int, astart + len),
            sb == b@.subrange(bstart as int, bstart + len),
            forall|k: int| 0 <= k < i ==> sa[k] == sb[k],
        decreases len - i,
    {
        if a[astart + i] != b[bstart + i] {
            proof {
                assert(sa[i as int] != sb[i as int]);
            }
            return false;
        }
        i = i + 1;
    }
    proof {
        assert(sa =~= sb);
    }
    true
}

/// The decimal digit value of a byte, if it is one.
fn digit_of(b: u8) -> (r: Option<u16>)
    ensures
        (r is Some) == (48 <= b <= 57),
        r is Some ==> r->0 == b - 48 && r->0 <= 9,
{
    if 48 <= b && b <= 57 {
        Some((b - 48) as u16)
    } else {
        None
    }
}

/// The hex digit value of a byte, if it is one.
fn hex_val_exec(b: u8) -> (r: Option<u16>)
    ensures
        r == hex_val(b),
{
    if 48 <= b && b <= 57 {
        Some((b - 48) as u16)
    } else if 65 <= b && b <= 70 {
        Some((b - 55) as u16)
    } else if 97 <= b && b <= 102 {
        Some((b - 87) as u16)
    } else {
        None
    }
}

/// The value of the four hex-digit bytes at `start`, if all four are hex
/// digits.
fn parse_hex4(v: &Vec<u8>, start: usize) -> (r: Option<u16>)
    requires
        start + 4 <= v@.len(),
    ensures
        r == hex_parse4(v@.subrange(start as int, start + 4)),
{
    let vlen = v.len();
    let ghost s = v@.subrange(start as int, start + 4);
    let d0 = hex_val_exec(v[start]);
    let d1 = hex_val_exec(v[start + 1]);
    let d2 = hex_val_exec(v[start + 2]);
    let d3 = hex_val_exec(v[start + 3]);
    proof {
        assert(s[0] == v@[start as int] && s[1] == v@[start + 1] && s[2] == v@[start + 2] && s[3]
            == v@[start + 3]);
    }
    match (d0, d1, d2, d3) {
        (Some(v0), Some(v1), Some(v2), Some(v3)) => Some(v0 * 4096 + v1 * 256 + v2 * 16 + v3),
        _ => None,
    }
}

impl ShortNameGenerator {
    /// Derive the base 8.3 candidate from a long name (phase A) and bind
    /// the name's checksum; no existing names are known yet.
    pub fn new(name: &str) -> (r: Self)
        ensures
            r@ == new_spec(name@),
            gen_wf(r@),
    {
        let cs = chars_of(name);
        let chksum = Self::checksum(&cs);
        let mut short_name: Vec<u8>;
        let basename_len: u8;
        let name_fits: bool;
        let lossy_conv: bool;
        if cs.len() == 1 && cs[0] as u32 == 46 {
            short_name = Vec::new();
            short_name.push(46);
            pad_to(&mut short_name, 11);
            proof {
                assert(short_name@ =~= space_pad(seq![46u8], 11));
            }
            basename_len = 1;
            name_fits = true;
            lossy_conv = false;
        } else if cs.len() == 2 && cs[0] as u32 == 46 && cs[1] as u32 == 46 {
            short_name = Vec::new();
            short_name.push(46);
            short_name.push(46);
            pad_to(&mut short_name, 11);
            proof {
                assert(short_name@ =~= space_pad(seq![46u8, 46u8], 11));
            }
            basename_len = 2;
            name_fits = true;
            lossy_conv = false;
        } else {
            let dot = rfind_dot(&cs);
            match dot {
                Some(ld) => {
                    let (base, bfits, blossy) = copy_short_name_part(&cs, 0, ld, 8);
                    let (ext, efits, elossy) = copy_short_name_part(&cs, ld + 1, cs.len(), 3);
                    proof {
                        assert(cs@.subrange(0, ld as int) =~= cs@.take(last_dot(cs@)));
                        assert(cs@.subrange(ld + 1, cs@.len() as int) =~= cs@.skip(
                            last_dot(cs@) + 1,
                        ));
                    }
                    basename_len = base.len() as u8;
                    short_name = base;
                    pad_to(&mut short_name, 8);
                    let mut i: usize = 0;
                    let ghost after_base = short_name@;
                    while i < ext.len()
                        invariant
                            i <= ext@.len(),
                            short_name@ == after_base + ext@.subrange(0, i as int),
                        decreases ext@.len() - i,
                    {
                        short_name.push(ext[i]);
                        i = i + 1;
                    }
                    pad_to(&mut short_name, 11);
                    proof {
                        assert(short_name@ =~= space_pad(
                            copy_part(cs@.take(last_dot(cs@)), 8).bytes,
                            8,
                        ) + space_pad(copy_part(cs@.skip(last_dot(cs@) + 1), 3).bytes, 3));
                    }
                    name_fits = bfits && efits;
                    lossy_conv = blossy || elossy;
                },
                None => {
                    let (base, bfits, blossy) = copy_short_name_part(&cs, 0, cs.len(), 8);
                    proof {
                        assert(cs@.subrange(0, cs@.len() as int) =~= cs@);
                    }
                    basename_len = base.len() as u8;
                    short_name = base;
                    pad_to(&mut short_name, 11);
                    proof {
                        assert(short_name@ =~= space_pad(copy_part(cs@, 8).bytes, 11));
                    }
                    name_fits = bfits;
                    lossy_conv = blossy;
                },
            }
        }
        let r = ShortNameGenerator {
            chksum,
            long_prefix_bitmap: 0,
            prefix_chksum_bitmap: 0,
            name_fits,
            lossy_conv,
            exact_match: false,
            basename_len,
            short_name,
            seen: Ghost(Set::empty()),
        };
        proof {
            assert(r@ =~= new_spec(name@));
        }
        r
    }

    /// The BSD-style 16-bit rotate checksum of the long name.
    pub fn checksum(name: &Vec<char>) -> (r: u16)
        ensures
            r == sfn_checksum_spec(name@),
    {
        let mut chksum: u16 = 0;
        let mut i: usize = 0;
        while i < name.len()
            invariant
                i <= name@.len(),
                chksum == sfn_checksum_spec(name@.subrange(0, i as int)),
            decreases name@.len() - i,
        {
            let c = name[i];
            let rotated: u16 = chksum / 2 + (chksum % 2) * 32768;
            let cp: u32 = (c as u32) % 65536;
            chksum = (((rotated as u32) + cp) % 65536) as u16;
            proof {
                assert(name@.subrange(0, i + 1).drop_last() =~= name@.subrange(0, i as int));
                assert(name@.subrange(0, i + 1).last() == name@[i as int]);
            }
            i = i + 1;
        }
        proof {
            assert(name@.subrange(0, name@.len() as int) =~= name@);
        }
        chksum
    }

    /// Absorb one short name already present in the directory: record an
    /// exact collision with the base candidate, and set the suffix bitmap
    /// bit of any candidate form the name collides with.
    pub fn add_existing(&mut self, short_name: &Vec<u8>)
        requires
            gen_wf(old(self)@),
            short_name@.len() == 11,
        ensures
            gen_wf(final(self)@),
            final(self)@.seen == old(self)@.seen.insert(short_name@),
            final(self)@.chksum == old(self)@.chksum,
            final(self)@.short_name == old(self)@.short_name,
            final(self)@.basename_len == old(self)@.basename_len,
            final(self)@.name_fits == old(self)@.name_fits,
            final(self)@.lossy_conv == old(self)@.lossy_conv,
            final(self)@.exact_match == (old(self)@.exact_match || short_name@ == old(
                self,
            )@.short_name),
            forall|d: u16|
                d < 16 ==> #[trigger] bit_set(final(self)@.long_prefix_bitmap, d) == (bit_set(
                    old(self)@.long_prefix_bitmap,
                    d,
                ) || long_pattern(old(self)@, short_name@, d)),
            forall|d: u16|
                d < 16 ==> #[trigger] bit_set(final(self)@.prefix_chksum_bitmap, d) == (bit_set(
                    old(self)@.prefix_chksum_bitmap,
                    d,
                ) || chksum_pattern(old(self)@, short_name@, d)),
    {
        let ghost g = old(self)@;
        let ghost n = short_name@;
        // exact match with the base candidate
        if bytes_eq(short_name, 0, &self.short_name, 0, 11) {
            proof {
                assert(n =~= n.subrange(0, 11));
                assert(g.short_name =~= g.short_name.subrange(0, 11));
            }
            self.exact_match = true;
        }
        let ext_matches = bytes_eq(short_name, 8, &self.short_name, 8, 3);
        // long prefix form: P~d + extension
        let prefix_len: usize = if self.basename_len < 6 {
            self.basename_len as usize
        } else {
            6
        };
        let num_suffix: Option<u16> = if short_name[prefix_len] == 126 {
            digit_of(short_name[prefix_len + 1])
        } else {
            None
        };
        if let Some(num) = num_suffix {
            if ext_matches && bytes_eq(short_name, 0, &self.short_name, 0, prefix_len) {
                self.long_prefix_bitmap = bit_or(self.long_prefix_bitmap, num);
                proof {
                    assert(long_pattern(g, n, num));
                }
            }
        }
        proof {
            assert forall|d: u16| d < 16 implies #[trigger] bit_set(self.long_prefix_bitmap, d) == (
            bit_set(g.long_prefix_bitmap, d) || long_pattern(g, n, d)) by {
                if long_pattern(g, n, d) {
                    assert(48 <= n[(if g.basename_len < 6 {
                        g.basename_len
                    } else {
                        6
                    }) + 1] <= 57);
                }
            }
        }
        // short prefix + checksum form: P HHHH ~d + extension
        let prefix_len2: usize = if self.basename_len < 2 {
            self.basename_len as usize
        } else {
            2
        };
        let num_suffix2: Option<u16> = if short_name[prefix_len2 + 4] == 126 {
            digit_of(short_name[prefix_len2 + 5])
        } else {
            None
        };
        if let Some(num) = num_suffix2 {
            if ext_matches && bytes_eq(short_name, 0, &self.short_name, 0, prefix_len2) {
                if let Some(parsed) = parse_hex4(short_name, prefix_len2) {
                    if parsed == self.chksum {
                        self.prefix_chksum_bitmap = bit_or(self.prefix_chksum_bitmap, num);
                        proof {
                            assert(chksum_pattern(g, n, num));
                        }
                    }
                }
            }
        }
        proof {
            assert forall|d: u16| d < 16 implies #[trigger] bit_set(self.prefix_chksum_bitmap, d)
                == (bit_set(g.prefix_chksum_bitmap, d) || chksum_pattern(g, n, d)) by {
                if chksum_pattern(g, n, d) {
                    assert(48 <= n[(if g.basename_len < 2 {
                        g.basename_len
                    } else {
                        2
                    }) + 5] <= 57);
                }
            }
        }
        self.seen = Ghost(self.seen@.insert(short_name@));
        proof {
            let gf = self@;
            assert forall|d: u16, m: Seq<u8>|
                d < 16 && !#[trigger] bit_set(gf.long_prefix_bitmap, d)
                    && #[trigger] gf.seen.contains(m) implies !long_pattern(gf, m, d) by {
                assert(long_pattern(gf, m, d) == long_pattern(g, m, d));
                if m == n {
                    assert(!long_pattern(g, n, d));
                } else {
                    assert(g.seen.contains(m));
                    assert(!long_pattern(g, m, d));
                }
            }
            assert forall|d: u16, m: Seq<u8>|
                d < 16 && !#[trigger] bit_set(gf.prefix_chksum_bitmap, d)
                    && #[trigger] gf.seen.contains(m) implies !chksum_pattern(gf, m, d) by {
                assert(chksum_pattern(gf, m, d) == chksum_pattern(g, m, d));
                if m == n {
                    assert(!chksum_pattern(g, n, d));
                } else {
                    assert(g.seen.contains(m));
                    assert(!chksum_pattern(g, m, d));
                }
            }
            if !gf.exact_match {
                assert(!gf.seen.contains(gf.short_name));
            }
            assert(gen_wf(gf));
        }
    }

    /// Pick a short name that collides with none of the absorbed ones: the
    /// base candidate when the conversion was faithful, it fit and nothing
    /// matched it exactly; else the first free `P~d` form for digits 1..=4;
    /// else the first free checksum form for digits 1..=9; else the
    /// namespace is exhausted.
    pub fn generate(&self) -> (r: Result<Vec<u8>, Error>)
        requires
            gen_wf(self@),
        ensures
            (r is Ok) == (generate_spec(self@) is Some),
            r is Ok ==> r->Ok_0@ == generate_spec(self@)->0,
            r is Ok ==> r->Ok_0@.len() == 11,
            r is Ok ==> !self@.seen.contains(r->Ok_0@),
            r is Err ==> r->Err_0 == Error::AlreadyExists,
    {
        let ghost g = self@;
        if !self.lossy_conv && self.name_fits && !self.exact_match {
            return Ok(clone_bytes(&self.short_name));
        }
        let mut d: u16 = 1;
        while d < 5
            invariant
                1 <= d <= 5,
                gen_wf(g),
                g == self@,
                !(!g.lossy_conv && g.name_fits && !g.exact_match),
                first_clear(g.long_prefix_bitmap, 1, 5) == first_clear(g.long_prefix_bitmap, d, 5),
            decreases 5 - d,
        {
            if !bit_get(self.long_prefix_bitmap, d) {
                let r = self.build_prefixed_name(d, false);
                proof {
                    assert(first_clear(g.long_prefix_bitmap, d, 5) == d);
                    lemma_long_form_fits_pattern(g, d);
                    if g.seen.contains(long_form(g, d)) {
                        assert(!long_pattern(g, long_form(g, d), d));
                    }
                }
                return Ok(r);
            }
            d = d + 1;
        }
        let mut d2: u16 = 1;
        while d2 < 10
            invariant
                1 <= d2 <= 10,
                gen_wf(g),
                g == self@,
                !(!g.lossy_conv && g.name_fits && !g.exact_match),
                first_clear(g.long_prefix_bitmap, 1, 5) == 5,
                first_clear(g.prefix_chksum_bitmap, 1, 10) == first_clear(
                    g.prefix_chksum_bitmap,
                    d2,
                    10,
                ),
            decreases 10 - d2,
        {
            if !bit_get(self.prefix_chksum_bitmap, d2) {
                let r = self.build_prefixed_name(d2, true);
                proof {
                    assert(first_clear(g.prefix_chksum_bitmap, d2, 10) == d2);
                    lemma_chksum_form_fits_pattern(g, d2);
                    if g.seen.contains(chksum_form(g, d2)) {
                        assert(!chksum_pattern(g, chksum_form(g, d2), d2));
                    }
                }
                return Ok(r);
            }
            d2 = d2 + 1;
        }
        Err(Error::AlreadyExists)
    }

    /// Build the suffixed candidate for digit `num`: prefix (plus the
    /// checksum's hex digits when asked), tilde, digit, space padding, and
    /// the derived extension.
    fn build_prefixed_name(&self, num: u16, with_chksum: bool) -> (r: Vec<u8>)
        requires
            self@.short_name.len() == 11,
            0 <= self@.basename_len <= 8,
            1 <= num <= 9,
        ensures
            r@ == if with_chksum {
                chksum_form(self@, num)
            } else {
                long_form(self@, num)
            },
            r@.len() == 11,
    {
        let mut buf: Vec<u8> = Vec::new();
        let prefix_len: usize = if with_chksum {
            if self.basename_len < 2 {
                self.basename_len as usize
            } else {
                2
            }
        } else {
            if self.basename_len < 6 {
                self.basename_len as usize
            } else {
                6
            }
        };
        let mut i: usize = 0;
        while i < prefix_len
            invariant
                i <= prefix_len,
                prefix_len <= 8,
                self@.short_name.len() == 11,
                buf@ == self@.short_name.subrange(0, i as int),
            decreases prefix_len - i,
        {
            buf.push(self.short_name[i]);
            i = i + 1;
        }
        if with_chksum {
            let x = self.chksum;
            proof {
                assert(x / 4096 < 16 && (x / 256) % 16 < 16 && (x / 16) % 16 < 16 && x % 16 < 16)
                    by (nonlinear_arith)
                    requires
                        x < 65536,
                ;
            }
            buf.push(hex_byte(x / 4096));
            buf.push(hex_byte((x / 256) % 16));
            buf.push(hex_byte((x / 16) % 16));
            buf.push(hex_byte(x % 16));
            proof {
                assert(buf@[prefix_len as int] == hex_digit(x, 0));
                assert(buf@[prefix_len + 1] == hex_digit(x, 1));
                assert(buf@[prefix_len + 2] == hex_digit(x, 2));
                assert(buf@[prefix_len + 3] == hex_digit(x, 3));
            }
        }
        buf.push(126);
        buf.push(48 + num as u8);
        pad_to(&mut buf, 8);
        buf.push(self.short_name[8]);
        buf.push(self.short_name[9]);
        buf.push(self.short_name[10]);
        proof {
            if with_chksum {
                assert(buf@ =~= chksum_form(self@, num));
            } else {
                assert(buf@ =~= long_form(self@, num));
            }
        }
        buf
    }
}

/// The upper-case hex digit byte of a nibble.
fn hex_byte(nibble: u16) -> (r: u8)
    requires
        nibble < 16,
    ensures
        r == if nibble < 10 {
            (48 + nibble) as u8
        } else {
            (55 + nibble) as u8
        },
{
    if nibble < 10 {
        (48 + nibble) as u8
    } else {
        (55 + nibble) as u8
    }
}

/// Pad a byte vector with spaces up to `n` bytes.
fn pad_to(buf: &mut Vec<u8>, n: usize)
    requires
        old(buf)@.len() <= n,
    ensures
        final(buf)@ == space_pad(old(buf)@, n as int),
{
    let ghost b0 = buf@;
    while buf.len() < n
        invariant
            b0.len() <= buf@.len() <= n,
            buf@ == b0 + Seq::new((buf@.len() - b0.len()) as nat, |i: int| 32u8),
        decreases n - buf@.len(),
    {
        let ghost prev = buf@;
        buf.push(32);
        proof {
            assert(buf@ =~= b0 + Seq::new((buf@.len() - b0.len()) as nat, |i: int| 32u8));
        }
    }
    proof {
        assert(buf@ =~= space_pad(b0, n as int));
    }
}

/// Index of the last dot of the name, if any.
fn rfind_dot(cs: &Vec<char>) -> (r: Option<usize>)
    ensures
        r is Some ==> r->0 == last_dot(cs@) && last_dot(cs@) >= 0 && r->0 < cs@.len(),
        r is None ==> last_dot(cs@) == -1,
{
    let mut i: usize = cs.len();
    proof {
        assert(cs@.take(cs@.len() as int) =~= cs@);
    }
    while i > 0
        invariant
            i <= cs@.len(),
            last_dot(cs@) == last_dot(cs@.take(i as int)),
        decreases i,
    {
        if cs[i - 1] as u32 == 46 {
            proof {
                assert(cs@.take(i as int).last() == cs@[i - 1]);
            }
            return Some(i - 1);
        }
        proof {
            assert(cs@.take(i as int).drop_last() =~= cs@.take(i - 1));
        }
        i = i - 1;
    }
    proof {
        assert(cs@.take(0) =~= Seq::<char>::empty());
    }
    None
}

/// Convert the characters `start..end` of a long name into at most `cap`
/// bytes of an 8.3 slot.
fn copy_short_name_part(src: &Vec<char>, start: usize, end: usize, cap: usize) -> (r: (
    Vec<u8>,
    bool,
    bool,
))
    requires
        start <= end <= src@.len(),
    ensures
        ({
            let pr = copy_part(src@.subrange(start as int, end as int), cap as int);
            r.0@ == pr.bytes && r.1 == pr.fits && r.2 == pr.lossy
        }),
        r.0@.len() <= cap,
{
    let ghost s = src@.subrange(start as int, end as int);
    let srclen = src.len();
    let mut out: Vec<u8> = Vec::new();
    let mut lossy = false;
    let mut fits = true;
    let mut i: usize = start;
    proof {
        assert(s.skip(0) =~= s);
    }
    loop
        invariant_except_break
            start <= i <= end <= src@.len(),
            src@.len() <= usize::MAX,
            out@.len() <= cap,
            fits == true,
            s == src@.subrange(start as int, end as int),
            copy_part(s, cap as int) == part_combine(
                out@,
                lossy,
                copy_part(s.skip(i - start), cap - out@.len()),
            ),
        ensures
            out@.len() <= cap,
            copy_part(s, cap as int) == (PartResult { bytes: out@, fits: fits, lossy: lossy }),
        decreases end - i,
    {
        if i >= end {
            proof {
                assert(s.skip(i - start) =~= Seq::<char>::empty());
                assert(copy_part(s.skip(i - start), cap - out@.len()) == (PartResult {
                    bytes: Seq::<u8>::empty(),
                    fits: true,
                    lossy: false,
                }));
                assert(out@ + Seq::<u8>::empty() =~= out@);
                assert(copy_part(s, cap as int) =~= (PartResult {
                    bytes: out@,
                    fits: true,
                    lossy: lossy,
                }));
            }
            break ;
        }
        if out.len() == cap {
            fits = false;
            proof {
                assert(s.skip(i - start).len() > 0);
                assert(copy_part(s.skip(i - start), 0) == (PartResult {
                    bytes: Seq::<u8>::empty(),
                    fits: false,
                    lossy: false,
                }));
                assert(out@ + Seq::<u8>::empty() =~= out@);
                assert(copy_part(s, cap as int) =~= (PartResult {
                    bytes: out@,
                    fits: false,
                    lossy: lossy,
                }));
            }
            break ;
        }
        let c = src[i];
        let x = c as u32;
        let ghost k = i - start;
        proof {
            assert(s.skip(k)[0] == s[k] && s[k] == src@[i as int]);
            assert(s.skip(k).drop_first() =~= s.skip(k + 1));
            assert(s.skip(k).len() > 0);
        }
        if x == 32 || x == 46 {
            proof {
                let rest = copy_part(s.skip(k + 1), cap - out@.len());
                assert(copy_part(s.skip(k), cap - out@.len()) == (PartResult {
                    bytes: rest.bytes,
                    fits: rest.fits,
                    lossy: true,
                }));
                assert(part_combine(out@, lossy, copy_part(s.skip(k), cap - out@.len()))
                    =~= part_combine(out@, true, rest));
            }
            lossy = true;
        } else {
            let allowed: bool = (x >= 65 && x <= 90) || (x >= 97 && x <= 122) || (x >= 48 && x
                <= 57) || x == 33 || x == 35 || x == 36 || x == 37 || x == 38 || x == 39 || x == 40
                || x == 41 || x == 45 || x == 64 || x == 94 || x == 95 || x == 96 || x == 123 || x
                == 125 || x == 126;
            proof {
                assert(allowed == allowed_sfn_char(c));
            }
            let fixed: u8 = if allowed {
                if x >= 97 && x <= 122 {
                    (x - 32) as u8
                } else {
                    x as u8
                }
            } else {
                lossy = true;
                95
            };
            proof {
                if allowed {
                    assert(fixed == upper_byte(c));
                }
                let rest = copy_part(s.skip(k + 1), cap - out@.len() - 1);
                assert(copy_part(s.skip(k), cap - out@.len()) == (PartResult {
                    bytes: seq![if allowed_sfn_char(c) {
                        upper_byte(c)
                    } else {
                        95u8
                    }] + rest.bytes,
                    fits: rest.fits,
                    lossy: !allowed_sfn_char(c) || rest.lossy,
                }));
                assert(out@ + (seq![fixed] + rest.bytes) =~= out@.push(fixed) + rest.bytes);
            }
            out.push(fixed);
        }
        i = i + 1;
    }
    (out, fits, lossy)
}

/// The `P~d` candidate itself collides with the `P~d` pattern for its own
/// digit: whoever added it would have set the bit.
proof fn lemma_long_form_fits_pattern(g: GenView, d: u16)
    requires
        g.short_name.len() == 11,
        0 <= g.basename_len <= 8,
        1 <= d <= 9,
    ensures
        long_pattern(g, long_form(g, d), d),
{
    let p = if g.basename_len < 6 {
        g.basename_len
    } else {
        6
    };
    let n = long_form(g, d);
    assert(n.subrange(0, p) =~= g.short_name.subrange(0, p));
    assert(n.subrange(8, 11) =~= g.short_name.subrange(8, 11));
}

/// The checksum-form candidate collides with the checksum pattern for its
/// own digit: its four hex digits parse back to the checksum.
proof fn lemma_chksum_form_fits_pattern(g: GenView, d: u16)
    requires
        g.short_name.len() == 11,
        0 <= g.basename_len <= 8,
        1 <= d <= 9,
    ensures
        chksum_pattern(g, chksum_form(g, d), d),
{
    let p = if g.basename_len < 2 {
        g.basename_len
    } else {
        2
    };
    let n = chksum_form(g, d);
    let x = g.chksum;
    assert(n.subrange(0, p) =~= g.short_name.subrange(0, p));
    assert(n.subrange(8, 11) =~= g.short_name.subrange(8, 11));
    let h = n.subrange(p, p + 4);
    assert(h[0] == hex_digit(x, 0) && h[1] == hex_digit(x, 1) && h[2] == hex_digit(x, 2) && h[3]
        == hex_digit(x, 3));
    lemma_hex_round_trip(x);
}

/// Reading the four upper-case hex digits of a 16-bit value back yields the
/// value.
proof fn lemma_hex_round_trip(x: u16)
    ensures
        hex_val(hex_digit(x, 0)) == Some((x / 4096) as u16),
        hex_val(hex_digit(x, 1)) == Some(((x / 256) % 16) as u16),
        hex_val(hex_digit(x, 2)) == Some(((x / 16) % 16) as u16),
        hex_val(hex_digit(x, 3)) == Some((x % 16) as u16),
        hex_parse4(
            seq![hex_digit(x, 0), hex_digit(x, 1), hex_digit(x, 2), hex_digit(x, 3)],
        ) == Some(x),
{
    assert(x / 4096 < 16) by (nonlinear_arith)
        requires
            x < 65536,
    ;
    assert((x / 4096) * 4096 + ((x / 256) % 16) * 256 + ((x / 16) % 16) * 16 + x % 16 == x)
        by (nonlinear_arith);
}

} // verus!
