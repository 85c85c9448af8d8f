//! Directory entries: the 32-byte records of a directory cluster, short
//! (8.3) names, and long file names put together from their fragments.

use vstd::prelude::*;
use vstd::slice::slice_subrange;
use vstd::string::StringExecFns;
use crate::bytes::{copy_range, le_u16, le_u32, le_units, read_u16_le, read_u32_le};
use crate::file_system::{info_views, Fat32FileSystem, FileInfo, FileInfoView, FsError};
use crate::text::{decode_utf16_units, decode_utf8_or_empty, utf16_decode, utf8_or_empty};

verus! {

/// The length of a directory entry.
pub const ENTRY_SIZE: usize = 32;

/// The first byte of the entry that ends a directory.
pub const ENTRY_END: u8 = 0x00;

/// The first byte of a deleted entry.
pub const ENTRY_DELETED: u8 = 0xE5;

/// The attribute byte of a long file name entry.
pub const ATTR_LFN: u8 = 0x0F;

/// The attribute bit of a volume label.
pub const ATTR_VOLUME_ID: u8 = 0x08;

/// The attribute bit of a directory.
pub const ATTR_DIRECTORY: u8 = 0x10;

/// Where the fields of a standard directory entry stand.
pub enum DirOffsets {
    /// The 8.3 name.
    Name,
    /// The attributes.
    Attr,
    /// The high half of the first cluster.
    FstClusHI,
    /// The low half of the first cluster.
    FstClusLO,
    /// The size of the file.
    FileSize,
}

impl DirOffsets {
    /// The byte offset of the field in the entry.
    pub open spec fn spec_offset(self) -> int {
        match self {
            DirOffsets::Name => 0,
            DirOffsets::Attr => 11,
            DirOffsets::FstClusHI => 20,
            DirOffsets::FstClusLO => 26,
            DirOffsets::FileSize => 28,
        }
    }

    /// The byte offset of the field in the entry.
    pub fn offset(&self) -> (off: usize)
        ensures
            off == self.spec_offset(),
    {
        match self {
            DirOffsets::Name => 0,
            DirOffsets::Attr => 11,
            DirOffsets::FstClusHI => 20,
            DirOffsets::FstClusLO => 26,
            DirOffsets::FileSize => 28,
        }
    }
}

/// Where the fields of a long file name entry stand.
pub enum LfnOffsets {
    Ord,
    Name1,
    Attr,
    LType,
    ChkSum,
    Name2,
    ReservedFCH,
    Name3,
}

impl LfnOffsets {
    /// The byte offset of the field in the entry.
    pub open spec fn spec_offset(self) -> int {
        match self {
            LfnOffsets::Ord => 0,
            LfnOffsets::Name1 => 1,
            LfnOffsets::Attr => 11,
            LfnOffsets::LType => 12,
            LfnOffsets::ChkSum => 13,
            LfnOffsets::Name2 => 14,
            LfnOffsets::ReservedFCH => 26,
            LfnOffsets::Name3 => 28,
        }
    }

    /// The byte offset of the field in the entry.
    pub fn offset(&self) -> (off: usize)
        ensures
            off == self.spec_offset(),
    {
        match self {
            LfnOffsets::Ord => 0,
            LfnOffsets::Name1 => 1,
            LfnOffsets::Attr => 11,
            LfnOffsets::LType => 12,
            LfnOffsets::ChkSum => 13,
            LfnOffsets::Name2 => 14,
            LfnOffsets::ReservedFCH => 26,
            LfnOffsets::Name3 => 28,
        }
    }
}

/// The `N` bytes of `data` from `off` on, as an array.
fn array_at<const N: usize>(data: &[u8], off: usize) -> (a: [u8; N])
    requires
        off + N <= data@.len(),
    ensures
        a@ == data@.subrange(off as int, off + N),
{
    let total: usize = data.len();
    let mut a: [u8; N] = [0u8; N];
    let mut i: usize = 0;
    while i < N
        invariant
            i <= N,
            off + N <= total,
            total == data@.len(),
            a@.len() == N,
            forall|j: int| 0 <= j < i ==> a@[j] == data@[off + j],
        decreases N - i,
    {
        a[i] = data[off + i];
        i += 1;
    }
    assert(a@ =~= data@.subrange(off as int, off + N));
    a
}

/// A standard directory entry, as it stands on disk.
#[derive(Debug, Copy, Clone)]
pub struct FatDir {
    /// The 8.3 name, 11 bytes.
    pub name: [u8; 11],
    /// The attributes.
    pub attr: u8,
    /// The high half of the first cluster.
    pub first_cluster_high: u16,
    /// The low half of the first cluster.
    pub first_cluster_low: u16,
    /// The size of the file in bytes.
    pub size: u32,
}

impl FatDir {
    fn read_u16(data: &[u8], offset: DirOffsets) -> (v: u16)
        requires
            data@.len() >= ENTRY_SIZE,
        ensures
            v as int == le_u16(data@, offset.spec_offset()),
    {
        read_u16_le(data, offset.offset())
    }

    fn read_u32(data: &[u8], offset: DirOffsets) -> (v: u32)
        requires
            data@.len() >= ENTRY_SIZE,
        ensures
            v as int == le_u32(data@, offset.spec_offset()),
    {
        read_u32_le(data, offset.offset())
    }

    /// Takes a standard entry apart; `data` holds its 32 bytes.
    pub fn new(data: &[u8]) -> (entry: FatDir)
        requires
            data@.len() >= ENTRY_SIZE,
        ensures
            entry.name@ == data@.subrange(0, 11),
            entry.attr == data@[11],
            entry.first_cluster_high == le_u16(data@, 20),
            entry.first_cluster_low == le_u16(data@, 26),
            entry.size == le_u32(data@, 28),
    {
        let name: [u8; 11] = array_at(data, DirOffsets::Name.offset());
        let attr = data[DirOffsets::Attr.offset()];
        let first_cluster_high = Self::read_u16(data, DirOffsets::FstClusHI);
        let first_cluster_low = Self::read_u16(data, DirOffsets::FstClusLO);
        let size = Self::read_u32(data, DirOffsets::FileSize);
        FatDir { name, attr, first_cluster_high, first_cluster_low, size }
    }
}

/// A long file name entry, as it stands on disk.
pub struct LongFileName {
    /// The sequence number, with the mark of the last fragment in bit 6.
    pub seq_num: u8,
    /// The first 5 code units of the fragment.
    pub name_1: [u8; 10],
    /// The attributes, `0x0F`.
    pub attr: u8,
    /// The type, 0.
    pub l_type: u8,
    /// The checksum of the short name that the fragment belongs to.
    pub chksum: u8,
    /// The next 6 code units.
    pub name_2: [u8; 12],
    /// A reserved field.
    pub reserved_fch: u16,
    /// The last 2 code units.
    pub name_3: [u8; 4],
}

impl LongFileName {
    /// Takes a long file name entry apart; `data` holds its 32 bytes.
    pub fn new(data: &[u8]) -> (entry: LongFileName)
        requires
            data@.len() >= ENTRY_SIZE,
        ensures
            entry.seq_num == data@[0],
            entry.name_1@ == data@.subrange(1, 11),
            entry.attr == data@[11],
            entry.l_type == data@[12],
            entry.chksum == data@[13],
            entry.name_2@ == data@.subrange(14, 26),
            entry.reserved_fch == le_u16(data@, 26),
            entry.name_3@ == data@.subrange(28, 32),
    {
        let seq_num = data[LfnOffsets::Ord.offset()];
        let attr = data[LfnOffsets::Attr.offset()];
        let l_type = data[LfnOffsets::LType.offset()];
        let chksum = data[LfnOffsets::ChkSum.offset()];
        let name_1: [u8; 10] = array_at(data, LfnOffsets::Name1.offset());
        let name_2: [u8; 12] = array_at(data, LfnOffsets::Name2.offset());
        let name_3: [u8; 4] = array_at(data, LfnOffsets::Name3.offset());
        let reserved_fch = read_u16_le(data, LfnOffsets::ReservedFCH.offset());
        LongFileName { seq_num, name_1, attr, l_type, chksum, name_2, reserved_fch, name_3 }
    }
}

/// One step of the short name checksum: the sum turned right by one bit,
/// plus the next byte, modulo 256.
pub open spec fn checksum_step(sum: u8, byte: u8) -> u8 {
    ((sum / 2 + (sum % 2) * 128 + byte) % 256) as u8
}

/// The checksum of a short name, which its long file name entries carry.
pub open spec fn short_name_checksum(name: Seq<u8>) -> u8
    decreases name.len(),
{
    if name.len() == 0 {
        0
    } else {
        checksum_step(short_name_checksum(name.drop_last()), name.last())
    }
}

/// Computes the checksum of an 8.3 name.
pub fn lfn_checksum(short_name: &[u8; 11]) -> (sum: u8)
    ensures
        sum == short_name_checksum(short_name@),
{
    let mut sum: u8 = 0;
    let mut i: usize = 0;
    while i < 11
        invariant
            i <= 11,
            sum == short_name_checksum(short_name@.take(i as int)),
        decreases 11 - i,
    {
        let b: u8 = short_name[i];
        let carry: u8 = (sum & 1) << 7;
        assert(carry == (sum % 2) * 128 && (sum >> 1) == sum / 2) by (bit_vector)
            requires
                carry == (sum & 1) << 7,
        ;
        assert(short_name@.take(i + 1).drop_last() =~= short_name@.take(i as int));
        sum = (sum >> 1).wrapping_add(carry).wrapping_add(b);
        i += 1;
    }
    assert(short_name@.take(11) =~= short_name@);
    sum
}

/// The bytes of `s` without the spaces at its end.
pub open spec fn trim_spaces(s: Seq<u8>) -> Seq<u8>
    decreases s.len(),
{
    if s.len() > 0 && s.last() == 0x20 {
        trim_spaces(s.drop_last())
    } else {
        s
    }
}

/// The 8.3 name as text: the stem and the extension, each without its
/// padding and empty where it is not UTF-8, with a dot between them where
/// there is an extension.
pub open spec fn short_name(name: Seq<u8>) -> Seq<char> {
    let stem = utf8_or_empty(trim_spaces(name.subrange(0, 8)));
    let ext = utf8_or_empty(trim_spaces(name.subrange(8, 11)));
    if ext.len() == 0 {
        stem
    } else {
        stem + seq!['.'] + ext
    }
}

/// The end of `data[from .. to]` once the spaces at its end are left out.
fn trimmed_end(data: &[u8], from: usize, to: usize) -> (end: usize)
    requires
        from <= to <= data@.len(),
    ensures
        from <= end <= to,
        data@.subrange(from as int, end as int) == trim_spaces(
            data@.subrange(from as int, to as int),
        ),
{
    let mut end: usize = to;
    while end > from && data[end - 1] == 0x20
        invariant
            from <= end <= to <= data@.len(),
            trim_spaces(data@.subrange(from as int, end as int)) == trim_spaces(
                data@.subrange(from as int, to as int),
            ),
        decreases end,
    {
        assert(data@.subrange(from as int, end as int).drop_last() =~= data@.subrange(
            from as int,
            end - 1,
        ));
        end -= 1;
    }
    end
}

/// Turns an 8.3 name into text, such as `FILE.TXT`.
pub fn short_name_to_string(name11: &[u8; 11]) -> (s: String)
    ensures
        s@ == short_name(name11@),
{
    let bytes = name11.as_slice();
    let stem_end = trimmed_end(bytes, 0, 8);
    let ext_end = trimmed_end(bytes, 8, 11);
    let name_str = decode_utf8_or_empty(copy_range(bytes, 0, stem_end));
    let ext_str = decode_utf8_or_empty(copy_range(bytes, 8, ext_end));
    if ext_str.as_str().is_empty() {
        name_str
    } else {
        let mut s = name_str;
        proof {
            reveal_strlit(".");
            assert("."@ =~= seq!['.']);
        }
        s.append(".");
        s.append(ext_str.as_str());
        s
    }
}

/// Reads the 16-bit code units that `fragment` holds, two bytes each.
pub fn byte_to_u16_vec(fragment: &[u8]) -> (units: Vec<u16>)
    ensures
        units@ == le_units(fragment@),
{
    let mut units: Vec<u16> = Vec::new();
    let count: usize = fragment.len() / 2;
    let mut i: usize = 0;
    while i < count
        invariant
            i <= count,
            count == fragment@.len() / 2,
            fragment@.len() <= usize::MAX,
            units@.len() == i,
            forall|j: int| 0 <= j < i ==> units@[j] == le_u16(fragment@, 2 * j) as u16,
        decreases count - i,
    {
        let unit = read_u16_le(fragment, 2 * i);
        units.push(unit);
        i += 1;
    }
    assert(units@ =~= le_units(fragment@));
    units
}

/// The fragments of a long file name collected so far, each with the
/// sequence number it came under.
pub type LfnFragments = Vec<(u8, Vec<u16>)>;

/// What the walk over a directory remembers between entries.
pub struct LfnState {
    /// The fragments collected since the last one marked as last, each with
    /// its sequence number.
    pub fragments: Seq<(u8, Seq<u16>)>,
    /// The checksum that the fragments expect of the short name.
    pub checksum: Option<u8>,
}

/// The state between names: no fragment, no checksum.
pub open spec fn no_lfn() -> LfnState {
    LfnState { fragments: Seq::empty(), checksum: None }
}

/// The fragments of a list, each with its code units as a sequence.
pub open spec fn fragment_views(fragments: Seq<(u8, Vec<u16>)>) -> Seq<(u8, Seq<u16>)> {
    fragments.map_values(|f: (u8, Vec<u16>)| (f.0, f.1@))
}

/// The state in which the walk holds `fragments` and expects `checksum`.
pub open spec fn state_of(fragments: Seq<(u8, Vec<u16>)>, checksum: Option<u8>) -> LfnState {
    LfnState { fragments: fragment_views(fragments), checksum }
}

/// The 13 code units of a long file name entry: 5, 6 and 2 of them, from the
/// bytes at 1, 14 and 28.
pub open spec fn lfn_entry_units(entry: Seq<u8>) -> Seq<u16> {
    le_units(entry.subrange(1, 11)) + le_units(entry.subrange(14, 26)) + le_units(
        entry.subrange(28, 32),
    )
}

/// Whether a fragment stands under sequence number `seq`.
pub open spec fn holds_seq(fragments: Seq<(u8, Seq<u16>)>, seq: u8) -> bool {
    exists|i: int| 0 <= i < fragments.len() && (#[trigger] fragments[i]).0 == seq
}

/// Whether `i` is the place of the first fragment under `seq`.
pub open spec fn is_first_with_seq(fragments: Seq<(u8, Seq<u16>)>, seq: u8, i: int) -> bool {
    &&& 0 <= i < fragments.len()
    &&& fragments[i].0 == seq
    &&& forall|j: int| 0 <= j < i ==> (#[trigger] fragments[j]).0 != seq
}

/// The fragments after one more has come in: it takes the place of the
/// first one with its sequence number, or goes to the end.
pub open spec fn store_fragment(fragments: Seq<(u8, Seq<u16>)>, seq: u8, units: Seq<u16>) -> Seq<
    (u8, Seq<u16>),
> {
    if holds_seq(fragments, seq) {
        fragments.update(choose|i: int| is_first_with_seq(fragments, seq, i), (seq, units))
    } else {
        fragments.push((seq, units))
    }
}

/// The state after a long file name entry: the low five bits of its first
/// byte number the fragment, bit 6 marks the last fragment of a name, which
/// comes first on disk and starts a new collection under its checksum.
pub open spec fn lfn_step(state: LfnState, entry: Seq<u8>) -> LfnState {
    let seq = entry[0] & 0x1F;
    let is_last = entry[0] & 0x40 != 0;
    let kept = if is_last {
        Seq::empty()
    } else {
        state.fragments
    };
    LfnState {
        fragments: store_fragment(kept, seq, lfn_entry_units(entry)),
        checksum: if is_last {
            Some(entry[13])
        } else {
            state.checksum
        },
    }
}

/// Takes in a long file name entry: its fragment is kept until the standard
/// entry that it belongs to comes.
pub fn process_lfn_entry(
    entry_chunk: &[u8],
    lfn_fragments: &mut LfnFragments,
    expected_checksum: &mut Option<u8>,
)
    requires
        entry_chunk@.len() >= ENTRY_SIZE,
    ensures
        state_of(final(lfn_fragments)@, *final(expected_checksum)) == lfn_step(
            state_of(old(lfn_fragments)@, *old(expected_checksum)),
            entry_chunk@,
        ),
{
    let lfn_entry = LongFileName::new(entry_chunk);

    let seq = lfn_entry.seq_num & 0x1F;
    let is_last = (lfn_entry.seq_num & 0x40) != 0;

    if is_last {
        lfn_fragments.clear();
        *expected_checksum = Some(lfn_entry.chksum);
    }
    let ghost kept = fragment_views(lfn_fragments@);
    assert(is_last ==> kept =~= Seq::empty());

    let mut fragment_data: Vec<u16> = Vec::new();
    let mut part_1 = byte_to_u16_vec(lfn_entry.name_1.as_slice());
    let mut part_2 = byte_to_u16_vec(lfn_entry.name_2.as_slice());
    let mut part_3 = byte_to_u16_vec(lfn_entry.name_3.as_slice());
    fragment_data.append(&mut part_1);
    fragment_data.append(&mut part_2);
    fragment_data.append(&mut part_3);
    assert(fragment_data@ =~= lfn_entry_units(entry_chunk@));

    let mut i: usize = 0;
    while i < lfn_fragments.len() && lfn_fragments[i].0 != seq
        invariant
            i <= lfn_fragments@.len(),
            fragment_views(lfn_fragments@) == kept,
            forall|j: int| 0 <= j < i ==> (#[trigger] kept[j]).0 != seq,
        decreases lfn_fragments@.len() - i,
    {
        i += 1;
    }
    if i < lfn_fragments.len() {
        proof {
            assert(kept[i as int].0 == seq);
            assert(is_first_with_seq(kept, seq, i as int));
            assert(holds_seq(kept, seq));
            let first = choose|k: int| is_first_with_seq(kept, seq, k);
            assert(first == i);
        }
        lfn_fragments[i] = (seq, fragment_data);
        assert(fragment_views(lfn_fragments@) =~= kept.update(
            i as int,
            (seq, lfn_entry_units(entry_chunk@)),
        ));
    } else {
        assert(!holds_seq(kept, seq));
        lfn_fragments.push((seq, fragment_data));
        assert(fragment_views(lfn_fragments@) =~= kept.push((seq, lfn_entry_units(entry_chunk@))));
    }
}

/// The code units of the fragments under `seq`, in the order of the list.
pub open spec fn units_with_seq(fragments: Seq<(u8, Seq<u16>)>, seq: u8) -> Seq<u16>
    decreases fragments.len(),
{
    if fragments.len() == 0 {
        Seq::empty()
    } else if fragments.last().0 == seq {
        units_with_seq(fragments.drop_last(), seq) + fragments.last().1
    } else {
        units_with_seq(fragments.drop_last(), seq)
    }
}

/// The code units of the fragments whose sequence number is below `bound`,
/// by ascending sequence number; fragments under one number keep the order
/// of the list.
pub open spec fn units_in_order(fragments: Seq<(u8, Seq<u16>)>, bound: nat) -> Seq<u16>
    decreases bound,
{
    if bound == 0 {
        Seq::empty()
    } else {
        units_in_order(fragments, (bound - 1) as nat) + units_with_seq(
            fragments,
            (bound - 1) as u8,
        )
    }
}

/// The place of the first `0x0000` in `units` from `from` on; the length of
/// `units` where there is none.
pub open spec fn nul_position(units: Seq<u16>, from: int) -> int
    decreases units.len() - from,
{
    if from >= units.len() {
        units.len() as int
    } else if units[from] == 0 {
        from
    } else {
        nul_position(units, from + 1)
    }
}

/// The code units of `units` that are not the padding `0xFFFF`.
pub open spec fn without_padding(units: Seq<u16>) -> Seq<u16>
    decreases units.len(),
{
    if units.len() == 0 {
        Seq::empty()
    } else if units.last() == 0xFFFF {
        without_padding(units.drop_last())
    } else {
        without_padding(units.drop_last()).push(units.last())
    }
}

/// The code units of the name that the fragments spell: all fragments by
/// ascending sequence number, up to the first `0x0000`, without padding.
pub open spec fn lfn_name_units(fragments: Seq<(u8, Seq<u16>)>) -> Seq<u16> {
    let all = units_in_order(fragments, 256);
    without_padding(all.take(nul_position(all, 0)))
}

/// The name that the fragments spell; `None` where there is no fragment or
/// the code units are not UTF-16.
pub open spec fn lfn_name(fragments: Seq<(u8, Seq<u16>)>) -> Option<Seq<char>> {
    if fragments.len() == 0 {
        None
    } else {
        utf16_decode(lfn_name_units(fragments))
    }
}

/// Adds to `out` the code units of the fragments under `seq`.
fn append_units_with_seq(fragments: &LfnFragments, seq: u8, out: &mut Vec<u16>)
    ensures
        final(out)@ == old(out)@ + units_with_seq(fragment_views(fragments@), seq),
{
    let ghost views = fragment_views(fragments@);
    let ghost start = out@;
    let mut i: usize = 0;
    assert(views.take(0) =~= Seq::empty());
    while i < fragments.len()
        invariant
            i <= fragments@.len(),
            views == fragment_views(fragments@),
            out@ == start + units_with_seq(views.take(i as int), seq),
        decreases fragments@.len() - i,
    {
        assert(views.take(i + 1).drop_last() =~= views.take(i as int));
        assert(views.take(i + 1).last() == views[i as int]);
        if fragments[i].0 == seq {
            let ghost before = out@;
            let mut j: usize = 0;
            while j < fragments[i].1.len()
                invariant
                    i < fragments@.len(),
                    j <= fragments@[i as int].1@.len(),
                    out@ == before + fragments@[i as int].1@.take(j as int),
                decreases fragments@[i as int].1@.len() - j,
            {
                out.push(fragments[i].1[j]);
                j += 1;
                assert(out@ =~= before + fragments@[i as int].1@.take(j as int));
            }
            assert(fragments@[i as int].1@.take(j as int) =~= views[i as int].1);
            assert(out@ =~= start + units_with_seq(views.take(i + 1), seq));
        }
        i += 1;
    }
    assert(views.take(i as int) =~= views);
}

/// Puts the fragments of a long file name together: all code units by
/// ascending sequence number, up to the first `0x0000`, without the padding
/// `0xFFFF`, decoded as UTF-16. `None` where there is no fragment or the
/// code units are not UTF-16.
pub fn assemble_lfn(lfn_fragments: &LfnFragments) -> (name: Option<String>)
    ensures
        match name {
            Some(s) => lfn_name(fragment_views(lfn_fragments@)) == Some(s@),
            None => lfn_name(fragment_views(lfn_fragments@)) is None,
        },
{
    if lfn_fragments.len() == 0 {
        return None;
    }
    let ghost views = fragment_views(lfn_fragments@);
    let mut all: Vec<u16> = Vec::new();
    let mut seq: u16 = 0;
    while seq < 256
        invariant
            seq <= 256,
            views == fragment_views(lfn_fragments@),
            all@ == units_in_order(views, seq as nat),
        decreases 256 - seq,
    {
        append_units_with_seq(lfn_fragments, seq as u8, &mut all);
        seq += 1;
    }
    let mut utf16_chars: Vec<u16> = Vec::new();
    let mut i: usize = 0;
    assert(all@.take(0) =~= Seq::empty());
    while i < all.len() && all[i] != 0x0000
        invariant
            i <= all@.len(),
            nul_position(all@, 0) == nul_position(all@, i as int),
            utf16_chars@ == without_padding(all@.take(i as int)),
        decreases all@.len() - i,
    {
        assert(all@.take(i + 1).drop_last() =~= all@.take(i as int));
        if all[i] != 0xFFFF {
            utf16_chars.push(all[i]);
        }
        i += 1;
    }
    decode_utf16_units(utf16_chars.as_slice())
}

/// The name of a standard entry: the long name where fragments came before
/// it, their checksum is that of the short name and they spell a name; the
/// short name in every other case.
pub open spec fn data_entry_name(state: LfnState, name: Seq<u8>) -> Seq<char> {
    if state.fragments.len() > 0 && state.checksum == Some(short_name_checksum(name)) {
        match lfn_name(state.fragments) {
            Some(long) => long,
            None => short_name(name),
        }
    } else {
        short_name(name)
    }
}

/// What a standard entry lists: nothing for a volume label, else the name,
/// the kind by the bits of `directory_mask`, the size and the first cluster.
pub open spec fn data_entry_info(state: LfnState, entry: Seq<u8>, directory_mask: u8) -> Option<
    FileInfoView,
> {
    if entry[11] & ATTR_VOLUME_ID != 0 {
        None
    } else {
        Some(
            FileInfoView {
                name: data_entry_name(state, entry.subrange(0, 11)),
                is_directory: entry[11] & directory_mask != 0,
                size: le_u32(entry, 28) as u32,
                start_cluster: (le_u16(entry, 20) * 65536 + le_u16(entry, 26)) as u32,
            },
        )
    }
}

/// The fragments that a standard entry leaves behind: none where they did
/// not fit its short name, else the ones that were there.
pub open spec fn fragments_after_data_entry(state: LfnState, entry: Seq<u8>) -> Seq<
    (u8, Seq<u16>),
> {
    if entry[11] & ATTR_VOLUME_ID == 0 && state.fragments.len() > 0 && state.checksum != Some(
        short_name_checksum(entry.subrange(0, 11)),
    ) {
        Seq::empty()
    } else {
        state.fragments
    }
}

/// Reads a standard entry and gives what it lists, with the long name where
/// the fragments collected before it belong to it.
pub fn process_data_entry(
    entry_chunk: &[u8],
    lfn_fragments: &mut LfnFragments,
    expected_checksum: &mut Option<u8>,
    attr_directory_mask: u8,
) -> (info: Option<FileInfo>)
    requires
        entry_chunk@.len() >= ENTRY_SIZE,
    ensures
        data_entry_info(
            state_of(old(lfn_fragments)@, *old(expected_checksum)),
            entry_chunk@,
            attr_directory_mask,
        ) == (match info {
            Some(file) => Some(file@),
            None => None,
        }),
        fragment_views(final(lfn_fragments)@) == fragments_after_data_entry(
            state_of(old(lfn_fragments)@, *old(expected_checksum)),
            entry_chunk@,
        ),
        *final(expected_checksum) == *old(expected_checksum),
{
    let dir_entry = FatDir::new(entry_chunk);

    if dir_entry.attr & ATTR_VOLUME_ID != 0 {
        return None;
    }
    let high: u32 = dir_entry.first_cluster_high as u32;
    let low: u32 = dir_entry.first_cluster_low as u32;
    assert((high << 16) | low == high * 65536 + low) by (bit_vector)
        requires
            high < 65536,
            low < 65536,
    ;
    let start_cluster: u32 = (high << 16) | low;

    let is_directory = (dir_entry.attr & attr_directory_mask) != 0;
    let size = dir_entry.size;

    let mut name_to_use: Option<String> = None;

    if lfn_fragments.len() > 0 {
        let computed = lfn_checksum(&dir_entry.name);
        let fits = match *expected_checksum {
            Some(expected) => expected == computed,
            None => false,
        };
        if fits {
            name_to_use = assemble_lfn(lfn_fragments);
        } else {
            lfn_fragments.clear();
            assert(fragment_views(lfn_fragments@) =~= Seq::empty());
        }
    }
    let name = match name_to_use {
        Some(long) => long,
        None => short_name_to_string(&dir_entry.name),
    };

    Some(FileInfo::new(name, is_directory, size, start_cluster))
}

/// The entry number `index` of a directory cluster.
pub open spec fn entry_at(data: Seq<u8>, index: int) -> Seq<u8> {
    data.subrange(ENTRY_SIZE * index, ENTRY_SIZE * index + ENTRY_SIZE)
}

/// What the entries of a directory cluster list from entry `index` on, with
/// `state` collected so far: the walk stops at the first entry that starts
/// with `0x00` and at the last whole entry; a deleted entry drops the
/// fragments; an entry with attribute `0x0F` is a fragment; every other is a
/// standard entry, after which the fragments are dropped.
pub open spec fn listing_from(data: Seq<u8>, index: int, state: LfnState) -> Seq<FileInfoView>
    decreases data.len() - ENTRY_SIZE * index,
{
    if index < 0 || ENTRY_SIZE * index + ENTRY_SIZE > data.len() {
        Seq::empty()
    } else {
        let entry = entry_at(data, index);
        if entry[0] == ENTRY_END {
            Seq::empty()
        } else if entry[0] == ENTRY_DELETED {
            listing_from(data, index + 1, no_lfn())
        } else if entry[11] == ATTR_LFN {
            listing_from(data, index + 1, lfn_step(state, entry))
        } else {
            match data_entry_info(state, entry, ATTR_DIRECTORY) {
                Some(info) => seq![info] + listing_from(data, index + 1, no_lfn()),
                None => listing_from(data, index + 1, no_lfn()),
            }
        }
    }
}

/// What a directory cluster lists.
pub open spec fn directory_listing(data: Seq<u8>) -> Seq<FileInfoView> {
    listing_from(data, 0, no_lfn())
}

/// Lists the entries of the directory in cluster `cluster_id`, in the order
/// in which they stand on disk.
///
/// Fails with `OutOfBounds` exactly when the cluster does not lie inside
/// the image.
pub fn list_directory_entries(fs: &Fat32FileSystem, cluster_id: u32) -> (r: Result<
    Vec<FileInfo>,
    FsError,
>)
    ensures
        match r {
            Ok(files) => fs.cluster_in_image(cluster_id) && info_views(files@)
                == directory_listing(fs.cluster_bytes(cluster_id)),
            Err(e) => e == FsError::OutOfBounds && !fs.cluster_in_image(cluster_id),
        },
{
    let cluster_data = match fs.read_cluster(cluster_id) {
        Ok(data) => data,
        Err(e) => {
            return Err(e);
        },
    };
    let mut results: Vec<FileInfo> = Vec::new();

    let mut lfn_fragments: LfnFragments = Vec::new();
    let mut expected_checksum: Option<u8> = None;
    assert(fragment_views(lfn_fragments@) =~= Seq::empty());
    assert(info_views(results@) =~= Seq::empty());

    let count: usize = cluster_data.len() / ENTRY_SIZE;
    let mut index: usize = 0;
    while index < count
        invariant
            index <= count,
            count == cluster_data@.len() / (ENTRY_SIZE as nat),
            cluster_data@ == fs.cluster_bytes(cluster_id),
            cluster_data@.len() <= usize::MAX,
            fs.cluster_in_image(cluster_id),
            directory_listing(cluster_data@) == info_views(results@) + listing_from(
                cluster_data@,
                index as int,
                state_of(lfn_fragments@, expected_checksum),
            ),
        decreases count - index,
    {
        let entry_chunk = slice_subrange(
            cluster_data.as_slice(),
            index * ENTRY_SIZE,
            index * ENTRY_SIZE + ENTRY_SIZE,
        );
        assert(entry_chunk@ == entry_at(cluster_data@, index as int));
        let first_byte = entry_chunk[0];
        let attributes = entry_chunk[11];

        if first_byte == ENTRY_END {
            assert(info_views(results@) + Seq::<FileInfoView>::empty() =~= info_views(results@));
            return Ok(results);
        }
        if first_byte == ENTRY_DELETED {
            lfn_fragments.clear();
            expected_checksum = None;
            assert(fragment_views(lfn_fragments@) =~= Seq::empty());
        } else if attributes == ATTR_LFN {
            process_lfn_entry(entry_chunk, &mut lfn_fragments, &mut expected_checksum);
        } else {
            let ghost before = info_views(results@);
            let ghost rest = listing_from(cluster_data@, index + 1, no_lfn());
            match process_data_entry(
                entry_chunk,
                &mut lfn_fragments,
                &mut expected_checksum,
                ATTR_DIRECTORY,
            ) {
                Some(file_info) => {
                    let ghost listed = file_info@;
                    results.push(file_info);
                    assert(info_views(results@) =~= before.push(listed));
                    assert(before + (seq![listed] + rest) =~= before.push(listed) + rest);
                },
                None => {},
            }
            lfn_fragments.clear();
            expected_checksum = None;
            assert(fragment_views(lfn_fragments@) =~= Seq::empty());
        }
        index += 1;
    }
    assert(info_views(results@) + Seq::<FileInfoView>::empty() =~= info_views(results@));
    Ok(results)
}

/// The names of the entries of a listing.
pub fn list_files_names<'a>(files: &'a [FileInfo]) -> (names: Vec<&'a str>)
    ensures
        names@.len() == files@.len(),
        forall|i: int| 0 <= i < files@.len() ==> (#[trigger] names@[i])@ == files@[i].name@,
{
    let mut names: Vec<&'a str> = Vec::new();
    let mut i: usize = 0;
    while i < files.len()
        invariant
            i <= files@.len(),
            names@.len() == i,
            forall|j: int| 0 <= j < i ==> (#[trigger] names@[j])@ == files@[j].name@,
        decreases files@.len() - i,
    {
        names.push(files[i].name.as_str());
        i += 1;
    }
    names
}

/// A standard entry whose short name does not have the checksum that the
/// fragments expect is listed under its short name.
pub proof fn lemma_checksum_mismatch_gives_short_name(
    state: LfnState,
    entry: Seq<u8>,
    directory_mask: u8,
)
    requires
        entry[11] & ATTR_VOLUME_ID == 0,
        state.checksum != Some(short_name_checksum(entry.subrange(0, 11))),
    ensures
        data_entry_info(state, entry, directory_mask) is Some,
        data_entry_info(state, entry, directory_mask).unwrap().name == short_name(
            entry.subrange(0, 11),
        ),
{
}

/// The same in a listing: where the walk comes to such an entry, the next
/// entry listed has the short name.
pub proof fn lemma_listing_checksum_mismatch(data: Seq<u8>, index: int, state: LfnState)
    requires
        0 <= index,
        ENTRY_SIZE * index + ENTRY_SIZE <= data.len(),
        entry_at(data, index)[0] != ENTRY_END,
        entry_at(data, index)[0] != ENTRY_DELETED,
        entry_at(data, index)[11] != ATTR_LFN,
        entry_at(data, index)[11] & ATTR_VOLUME_ID == 0,
        state.checksum != Some(short_name_checksum(entry_at(data, index).subrange(0, 11))),
    ensures
        listing_from(data, index, state).len() > 0,
        listing_from(data, index, state)[0].name == short_name(
            entry_at(data, index).subrange(0, 11),
        ),
{
    lemma_checksum_mismatch_gives_short_name(state, entry_at(data, index), ATTR_DIRECTORY);
}

} // verus!
