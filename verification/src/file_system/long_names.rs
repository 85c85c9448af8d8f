//! Long file names on disk: how a name lies in the fragments before its
//! standard entry, and that a listing gives the name back.

use vstd::prelude::*;
use crate::file_system::directory::{
    data_entry_info, data_entry_name, entry_at, holds_seq, lfn_entry_units, lfn_name,
    lfn_name_units, lfn_step, listing_from, nul_position, short_name_checksum, store_fragment,
    units_in_order, units_with_seq, without_padding, LfnState, ATTR_DIRECTORY, ATTR_LFN,
    ATTR_VOLUME_ID, ENTRY_DELETED, ENTRY_END, ENTRY_SIZE,
};
use crate::text::{lemma_utf16_decode_encode, utf16_encode, utf16_encode_char};

verus! {

/// The number of fragments that a name of these code units takes.
pub open spec fn fragment_count(units: Seq<u16>) -> int {
    (units.len() as int + 12) / 13
}

/// The code units that the fragments of a name hold together: the name,
/// then `0x0000` and `0xFFFF` up to the end of the last fragment, where the
/// name leaves room.
pub open spec fn padded_units(units: Seq<u16>) -> Seq<u16> {
    Seq::new(
        (13 * fragment_count(units)) as nat,
        |i: int|
            if i < units.len() {
                units[i]
            } else if i == units.len() {
                0u16
            } else {
                0xFFFFu16
            },
    )
}

/// The code units of fragment number `seq` of a name; fragments are
/// numbered from 1.
pub open spec fn fragment_units(units: Seq<u16>, seq: int) -> Seq<u16> {
    padded_units(units).subrange(13 * (seq - 1), 13 * seq)
}

/// Whether `entry` is the long file name entry of fragment number `seq` of
/// a name: the last fragment is marked in bit 6 of the first byte.
pub open spec fn is_fragment_of(entry: Seq<u8>, units: Seq<u16>, seq: int, checksum: u8) -> bool {
    &&& entry[0] == if seq == fragment_count(units) {
        seq + 0x40
    } else {
        seq
    }
    &&& entry[11] == ATTR_LFN
    &&& entry[13] == checksum
    &&& lfn_entry_units(entry) == fragment_units(units, seq)
}

/// Whether the entries of a directory cluster from entry `index` on hold a
/// name of these code units: its fragments, the last one first, each with
/// the checksum of the short name, then the standard entry of that short
/// name.
pub open spec fn holds_long_name(data: Seq<u8>, index: int, units: Seq<u16>) -> bool {
    let count = fragment_count(units);
    let standard = entry_at(data, index + count);
    &&& 0 <= index
    &&& 1 <= count <= 31
    &&& ENTRY_SIZE * (index + count) + ENTRY_SIZE <= data.len()
    &&& forall|j: int|
        0 <= j < count ==> is_fragment_of(
            #[trigger] entry_at(data, index + j),
            units,
            count - j,
            short_name_checksum(standard.subrange(0, 11)),
        )
    &&& standard[0] != ENTRY_END
    &&& standard[0] != ENTRY_DELETED
    &&& standard[11] != ATTR_LFN
    &&& standard[11] & ATTR_VOLUME_ID == 0
}

/// Whether a name can stand in fragments: no character of it is the
/// terminator `U+0000` or the padding `U+FFFF`.
pub open spec fn is_storable_name(name: Seq<char>) -> bool {
    forall|i: int| 0 <= i < name.len() ==> (#[trigger] name[i]) as u32 != 0 && name[i] as u32 != 0xFFFF
}

/// The fragments collected after the first `taken` entries of a name.
spec fn collected(units: Seq<u16>, taken: int) -> Seq<(u8, Seq<u16>)> {
    Seq::new(
        taken as nat,
        |i: int| ((fragment_count(units) - i) as u8, fragment_units(units, fragment_count(units) - i)),
    )
}

spec fn collecting(data: Seq<u8>, index: int, units: Seq<u16>, taken: int) -> LfnState {
    LfnState {
        fragments: collected(units, taken),
        checksum: Some(
            short_name_checksum(entry_at(data, index + fragment_count(units)).subrange(0, 11)),
        ),
    }
}

proof fn lemma_clean_units(name: Seq<char>)
    requires
        is_storable_name(name),
    ensures
        forall|i: int|
            0 <= i < utf16_encode(name).len() ==> (#[trigger] utf16_encode(name)[i]) != 0
                && utf16_encode(name)[i] != 0xFFFF,
    decreases name.len(),
{
    if name.len() > 0 {
        let rest = name.drop_first();
        assert forall|i: int| 0 <= i < rest.len() implies (#[trigger] rest[i]) as u32 != 0
            && rest[i] as u32 != 0xFFFF by {
            assert(rest[i] == name[i + 1]);
        }
        lemma_clean_units(rest);
        vstd::utf8::char_is_scalar(name[0]);
        let head = utf16_encode_char(name[0]);
        assert(name[0] as u32 != 0 && name[0] as u32 != 0xFFFF);
        assert forall|i: int| 0 <= i < utf16_encode(name).len() implies (#[trigger] utf16_encode(
            name,
        )[i]) != 0 && utf16_encode(name)[i] != 0xFFFF by {
            if i >= head.len() {
                assert(utf16_encode(name)[i] == utf16_encode(rest)[i - head.len()]);
            } else {
                assert(utf16_encode(name)[i] == head[i]);
            }
        }
    }
}

proof fn lemma_fragments_collected(
    data: Seq<u8>,
    index: int,
    units: Seq<u16>,
    state: LfnState,
    taken: int,
)
    requires
        holds_long_name(data, index, units),
        1 <= taken <= fragment_count(units),
    ensures
        listing_from(data, index, state) == listing_from(
            data,
            index + taken,
            collecting(data, index, units, taken),
        ),
    decreases taken,
{
    let count = fragment_count(units);
    let entry = entry_at(data, index + (taken - 1));
    let first: u8 = entry[0];
    let frag = fragment_units(units, count - (taken - 1));
    assert(is_fragment_of(
        entry,
        units,
        count - (taken - 1),
        short_name_checksum(entry_at(data, index + count).subrange(0, 11)),
    ));
    if taken == 1 {
        assert(first & 0x1F == (first - 64) as u8 && first & 0x40 != 0) by (bit_vector)
            requires
                65 <= first <= 95,
        ;
        assert(!holds_seq(Seq::<(u8, Seq<u16>)>::empty(), count as u8));
        assert(store_fragment(Seq::empty(), count as u8, frag) =~= collected(units, 1));
        assert(lfn_step(state, entry) == collecting(data, index, units, 1));
    } else {
        lemma_fragments_collected(data, index, units, state, taken - 1);
        let before = collecting(data, index, units, taken - 1);
        assert(first & 0x1F == first && first & 0x40 == 0) by (bit_vector)
            requires
                1 <= first <= 31,
        ;
        assert(!holds_seq(before.fragments, first)) by {
            assert forall|i: int| 0 <= i < before.fragments.len() implies (
            #[trigger] before.fragments[i]).0 != first by {
                assert(before.fragments[i].0 == (count - i) as u8);
            }
        }
        assert(store_fragment(before.fragments, first, frag) =~= collected(units, taken));
        assert(lfn_step(before, entry) == collecting(data, index, units, taken));
    }
}

proof fn lemma_units_with_seq(units: Seq<u16>, taken: int, seq: u8)
    requires
        0 <= taken <= fragment_count(units) <= 31,
    ensures
        units_with_seq(collected(units, fragment_count(units)).take(taken), seq) == if fragment_count(
            units,
        ) - taken < seq <= fragment_count(units) {
            fragment_units(units, seq as int)
        } else {
            Seq::empty()
        },
    decreases taken,
{
    let count = fragment_count(units);
    let all = collected(units, count);
    if taken > 0 {
        lemma_units_with_seq(units, taken - 1, seq);
        assert(all.take(taken).drop_last() =~= all.take(taken - 1));
        assert(all.take(taken).last() == all[taken - 1]);
        assert(all[taken - 1].0 == (count - (taken - 1)) as u8);
        if all[taken - 1].0 == seq {
            assert(Seq::<u16>::empty() + fragment_units(units, seq as int) =~= fragment_units(
                units,
                seq as int,
            ));
        }
    }
}

proof fn lemma_units_in_order(units: Seq<u16>, bound: nat)
    requires
        1 <= fragment_count(units) <= 31,
        bound <= 256,
    ensures
        units_in_order(collected(units, fragment_count(units)), bound) == padded_units(
            units,
        ).take(
            13 * (if bound == 0 {
                0
            } else if bound - 1 <= fragment_count(units) {
                bound - 1
            } else {
                fragment_count(units)
            }),
        ),
    decreases bound,
{
    let count = fragment_count(units);
    let all = collected(units, count);
    let padded = padded_units(units);
    if bound == 0 {
        assert(padded.take(0) =~= Seq::empty());
    } else {
        lemma_units_in_order(units, (bound - 1) as nat);
        lemma_units_with_seq(units, count, (bound - 1) as u8);
        assert(all.take(count) =~= all);
        let seq = bound - 1;
        if 1 <= seq <= count {
            assert(padded.take(13 * (seq - 1)) + fragment_units(units, seq) =~= padded.take(
                13 * seq,
            ));
        } else {
            assert(units_in_order(all, (bound - 1) as nat) + Seq::<u16>::empty()
                =~= units_in_order(all, (bound - 1) as nat));
        }
    }
}

proof fn lemma_nul_position(units: Seq<u16>, from: int)
    requires
        0 <= from <= units.len(),
        forall|i: int| 0 <= i < units.len() ==> (#[trigger] units[i]) != 0,
    ensures
        nul_position(padded_units(units), from) == units.len(),
    decreases units.len() - from,
{
    if from < units.len() {
        assert(padded_units(units)[from] == units[from]);
        lemma_nul_position(units, from + 1);
    }
}

proof fn lemma_without_padding(units: Seq<u16>)
    requires
        forall|i: int| 0 <= i < units.len() ==> (#[trigger] units[i]) != 0xFFFF,
    ensures
        without_padding(units) == units,
    decreases units.len(),
{
    if units.len() > 0 {
        lemma_without_padding(units.drop_last());
        assert(units.drop_last().push(units.last()) =~= units);
    }
}

/// A listing gives a long name back: where the entries of a directory hold
/// the fragments of `name`, the last one first, with the checksum of the
/// short name that follows them, the walk lists that entry under `name`,
/// whatever it had collected before.
pub proof fn lemma_long_name_round_trip(
    data: Seq<u8>,
    index: int,
    name: Seq<char>,
    state: LfnState,
)
    requires
        is_storable_name(name),
        holds_long_name(data, index, utf16_encode(name)),
    ensures
        listing_from(data, index, state).len() > 0,
        listing_from(data, index, state)[0].name == name,
{
    let units = utf16_encode(name);
    let count = fragment_count(units);
    let standard = entry_at(data, index + count);
    let full = collecting(data, index, units, count);
    lemma_clean_units(name);
    lemma_fragments_collected(data, index, units, state, count);
    lemma_units_in_order(units, 256);
    let padded = padded_units(units);
    assert(padded.take(13 * count) =~= padded);
    lemma_nul_position(units, 0);
    assert(padded.take(units.len() as int) =~= units);
    lemma_without_padding(units);
    assert(lfn_name_units(full.fragments) == units);
    lemma_utf16_decode_encode(name);
    assert(lfn_name(full.fragments) == Some(name));
    assert(data_entry_name(full, standard.subrange(0, 11)) == name);
    let info = data_entry_info(full, standard, ATTR_DIRECTORY);
    assert(info is Some && info.unwrap().name == name);
    let listed = listing_from(data, index + count, full);
    assert(listed[0] == info.unwrap());
}

} // verus!
