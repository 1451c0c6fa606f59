//! Laws that relate encoding and decoding.
use vstd::prelude::*;
use crate::decode::{decode, end_from, end_of, entry_count, first_slot_error, header_error, offset_word, slot_error, slot_value};
use crate::encode::{content, encode, packable, lemma_payload_prefix_len, lemma_payload_step, offset_words, payload, slot_offset, table_len};
use crate::layout::{header_len, le_bytes, lemma_le_bytes_read, u32_at};
use crate::encode::PackError;
use crate::names::{lemma_slot_file_name, slot_file_name_of};
use crate::order::{arrange, first_misnumbered, insert_by_index, slot_file_of, slot_files, sort_by_index, SlotFile};

verus! {

/// The payload of the first `k` slots is the start of the whole payload.
pub proof fn lemma_payload_prefix(f: Seq<Option<Seq<u8>>>, k: int)
    requires
        0 <= k <= f.len(),
    ensures
        payload(f.take(k)) == payload(f).take(payload(f.take(k)).len() as int),
    decreases f.len() - k,
{
    if k == f.len() {
        assert(f.take(k) =~= f);
        assert(payload(f).take(payload(f).len() as int) =~= payload(f));
    } else {
        lemma_payload_step(f, k);
        lemma_payload_prefix(f, k + 1);
        assert(payload(f.take(k)) =~= payload(f.take(k + 1)).take(
            payload(f.take(k)).len() as int,
        ));
        let l0 = payload(f.take(k)).len() as int;
        let l1 = payload(f.take(k + 1)).len() as int;
        lemma_payload_prefix_len(f, k + 1);
        assert(payload(f).take(l1).take(l0) =~= payload(f).take(l0));
    }
}

/// The offset words of the first `k` slots: four bytes for each, in order.
pub proof fn lemma_offset_words(f: Seq<Option<Seq<u8>>>, k: nat, j: int)
    requires
        0 <= j < k,
    ensures
        offset_words(f, k).len() == 4 * k,
        offset_words(f, k).subrange(4 * j, 4 * j + 4) == le_bytes(slot_offset(f, j)),
    decreases k,
{
    lemma_offset_words_len(f, k);
    if j < k - 1 {
        lemma_offset_words(f, (k - 1) as nat, j);
        assert(offset_words(f, k).subrange(4 * j, 4 * j + 4) =~= offset_words(
            f,
            (k - 1) as nat,
        ).subrange(4 * j, 4 * j + 4));
    } else {
        lemma_offset_words_len(f, (k - 1) as nat);
        assert(offset_words(f, k).subrange(4 * j, 4 * j + 4) =~= le_bytes(slot_offset(f, j)));
    }
}

/// The offset words of `k` slots take four bytes each.
pub proof fn lemma_offset_words_len(f: Seq<Option<Seq<u8>>>, k: nat)
    ensures
        offset_words(f, k).len() == 4 * k,
    decreases k,
{
    if k > 0 {
        lemma_offset_words_len(f, (k - 1) as nat);
    }
}

/// The words of an encoded table: its count, each slot's offset, its length.
pub proof fn lemma_encoded_words(f: Seq<Option<Seq<u8>>>)
    requires
        table_len(f) <= u32::MAX,
    ensures
        encode(f).len() == table_len(f),
        entry_count(encode(f)) == f.len(),
        forall|j: int| 0 <= j < f.len() ==> #[trigger] offset_word(encode(f), j) == slot_offset(f, j),
        offset_word(encode(f), f.len() as int) == table_len(f),
{
    let t = encode(f);
    let n = f.len();
    let h = header_len(n) as int;
    lemma_offset_words_len(f, n);
    assert(t.subrange(0, 4) =~= le_bytes(n));
    lemma_le_bytes_read(n, t, 0);
    assert(t.subrange(h - 4, h) =~= le_bytes(table_len(f)));
    lemma_le_bytes_read(table_len(f), t, h - 4);
    assert forall|j: int| 0 <= j < n implies #[trigger] offset_word(t, j) == slot_offset(f, j) by {
        lemma_offset_words(f, n, j);
        assert(t.subrange(4 + 4 * j, 8 + 4 * j) =~= offset_words(f, n).subrange(4 * j, 4 * j + 4));
        lemma_payload_prefix_len(f, j);
        lemma_le_bytes_read(slot_offset(f, j), t, 4 + 4 * j);
    }
}

/// In an encoded table the payload of slots `j..` starts where the
/// payload of the first `j` slots ends.
pub proof fn lemma_encoded_end_from(f: Seq<Option<Seq<u8>>>, j: nat)
    requires
        table_len(f) <= u32::MAX,
        j <= f.len(),
    ensures
        end_from(encode(f), f.len(), j) == header_len(f.len()) + payload(f.take(j as int)).len(),
    decreases f.len() - j,
{
    lemma_encoded_words(f);
    if j >= f.len() {
        assert(f.take(j as int) =~= f);
    } else {
        lemma_payload_step(f, j as int);
        if f[j as int] is None {
            lemma_encoded_end_from(f, j + 1);
        }
    }
}

/// Each slot of a packable table decodes to what was encoded.
pub proof fn lemma_encoded_slot(f: Seq<Option<Seq<u8>>>, i: nat)
    requires
        packable(f),
        i < f.len(),
    ensures
        slot_error(encode(f), f.len(), i) is None,
        slot_value(encode(f), f.len(), i) == f[i as int],
{
    let t = encode(f);
    let n = f.len();
    let h = header_len(n) as int;
    lemma_encoded_words(f);
    lemma_encoded_end_from(f, i + 1);
    lemma_payload_step(f, i as int);
    if f[i as int] is Some {
        let a = payload(f.take(i as int)).len() as int;
        let b = payload(f.take(i + 1 as int)).len() as int;
        lemma_payload_prefix_len(f, i + 1 as int);
        lemma_payload_prefix(f, i + 1 as int);
        assert(end_of(t, n, i) == h + b);
        assert(t.subrange(h + a, h + b) =~= payload(f).subrange(a, b));
        assert(payload(f).subrange(a, b) =~= payload(f.take(i + 1 as int)).subrange(a, b));
        assert(payload(f.take(i + 1 as int)).subrange(a, b) =~= content(f[i as int]));
    }
}

/// No slot from `i` on of a packable table is in error.
pub proof fn lemma_encoded_no_slot_error(f: Seq<Option<Seq<u8>>>, i: nat)
    requires
        packable(f),
        i <= f.len(),
    ensures
        first_slot_error(encode(f), f.len(), i) is None,
    decreases f.len() - i,
{
    if i < f.len() {
        lemma_encoded_slot(f, i);
        lemma_encoded_no_slot_error(f, i + 1);
    }
}

/// Unpacking a packed table gives back every slot: absent ones absent, and
/// present ones with the same bytes.
pub proof fn lemma_round_trip(f: Seq<Option<Seq<u8>>>)
    requires
        packable(f),
    ensures
        decode(encode(f)) == Ok::<Seq<Option<Seq<u8>>>, crate::decode::UnpackError>(f),
{
    let t = encode(f);
    lemma_encoded_words(f);
    assert(header_error(t) is None);
    lemma_encoded_no_slot_error(f, 0);
    assert forall|i: int| 0 <= i < f.len() implies #[trigger] slot_value(t, f.len(), i as nat)
        == f[i] by {
        lemma_encoded_slot(f, i as nat);
    }
    assert(Seq::new(entry_count(t), |i: int| slot_value(t, entry_count(t), i as nat)) =~= f);
}

/// The last word of the offset array of a packed table is the table's length.
pub proof fn lemma_sentinel(f: Seq<Option<Seq<u8>>>)
    requires
        table_len(f) <= u32::MAX,
    ensures
        u32_at(encode(f), 4 + 4 * f.len() as int) == encode(f).len(),
{
    lemma_encoded_words(f);
}

/// Unpacking is a function of the table's bytes: equal tables give equal
/// results, so unpacking one table twice gives the same slots both times.
pub proof fn lemma_unpack_deterministic(t1: Seq<u8>, t2: Seq<u8>)
    requires
        t1 == t2,
    ensures
        decode(t1) == decode(t2),
{
}

/// The names that unpacking writes for slots present as `present` says.
pub open spec fn unpacked_names(present: Seq<bool>) -> Seq<Seq<u8>> {
    Seq::new(present.len(), |i: int| slot_file_name_of(i as u16, present[i]))
}

/// Slot `i` from the file at position `i`, absent as `present` says.
pub open spec fn files_in_place(present: Seq<bool>) -> Seq<SlotFile> {
    Seq::new(
        present.len(),
        |i: int| SlotFile { index: i as u16, absent: !present[i], source: i as usize },
    )
}

proof fn lemma_unpacked_slot_files(present: Seq<bool>, k: int)
    requires
        present.len() <= 65536,
        0 <= k <= present.len(),
    ensures
        slot_files(unpacked_names(present).take(k)) == files_in_place(present).take(k),
        sort_by_index(files_in_place(present).take(k)) == files_in_place(present).take(k),
    decreases k,
{
    let names = unpacked_names(present);
    let files = files_in_place(present);
    if k == 0 {
        assert(names.take(0) =~= Seq::<Seq<u8>>::empty());
        assert(files.take(0) =~= Seq::<SlotFile>::empty());
    } else {
        lemma_unpacked_slot_files(present, k - 1);
        assert(names.take(k).drop_last() =~= names.take(k - 1));
        assert(files.take(k).drop_last() =~= files.take(k - 1));
        lemma_slot_file_name((k - 1) as u16, present[k - 1]);
        assert(slot_file_of(names[k - 1], k - 1) =~= seq![files[k - 1]]);
        assert(slot_files(names.take(k)) =~= files.take(k));
        let before = files.take(k - 1);
        if k > 1 {
            assert(before.last().index < files[k - 1].index);
        }
        assert(insert_by_index(before, files[k - 1]) =~= files.take(k));
    }
}

proof fn lemma_in_place_numbered(present: Seq<bool>, k: nat)
    requires
        present.len() <= 65536,
    ensures
        first_misnumbered(files_in_place(present), k) is None,
    decreases present.len() - k,
{
    if k < present.len() {
        lemma_in_place_numbered(present, k + 1);
    }
}

/// The names that unpacking writes, read back when packing, give every
/// slot in its place, with its presence kept.
pub proof fn lemma_unpacked_names_order(present: Seq<bool>)
    requires
        1 <= present.len() <= 65536,
    ensures
        arrange(unpacked_names(present)) == Ok::<Seq<SlotFile>, PackError>(
            files_in_place(present),
        ),
{
    let n = present.len() as int;
    lemma_unpacked_slot_files(present, n);
    assert(unpacked_names(present).take(n) =~= unpacked_names(present));
    assert(files_in_place(present).take(n) =~= files_in_place(present));
    lemma_in_place_numbered(present, 0);
}

} // verus!
