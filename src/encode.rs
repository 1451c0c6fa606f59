//! Encoding slots into a table buffer.
use vstd::prelude::*;
use crate::layout::{header_len, le_bytes, push_u32_le, slots_view, Slot, MAX_SLOTS, WORD};

verus! {

/// Why a set of numbered files cannot be packed.
#[derive(Clone, Copy, Debug, PartialEq, Eq)]
pub enum PackError {
    /// No file name has a numeric stem.
    NoNumberedFiles,
    /// In index order, the file at position `expected` has another index:
    /// `expected` is missing, or the file's index repeats an earlier one.
    /// `found` is that file's position in the list of names.
    Misnumbered { expected: usize, found: usize },
    /// More slots than a table may declare; holds their number.
    TooManySlots(usize),
    /// A present slot with no bytes, which no table can hold.
    EmptySlot(u16),
    /// The table would be longer than a 32-bit offset can address.
    TooLarge,
}

/// Slots that a table can carry: at most 65535 of them, every present one
/// non-empty, and a table that 32-bit offsets reach.
pub open spec fn packable(f: Seq<Option<Seq<u8>>>) -> bool {
    &&& f.len() <= MAX_SLOTS
    &&& table_len(f) <= u32::MAX
    &&& forall|i: int| 0 <= i < f.len() && f[i] is Some ==> #[trigger] f[i]->Some_0.len() > 0
}

/// The first present slot with no bytes at or after `i`.
pub open spec fn first_empty_slot(f: Seq<Option<Seq<u8>>>, i: nat) -> Option<nat>
    decreases f.len() - i,
{
    if i >= f.len() {
        None
    } else if f[i as int] is Some && f[i as int]->Some_0.len() == 0 {
        Some(i)
    } else {
        first_empty_slot(f, i + 1)
    }
}

/// Why `f` cannot be packed, checked in this order, if anything.
pub open spec fn pack_error(f: Seq<Option<Seq<u8>>>) -> Option<PackError> {
    if f.len() > MAX_SLOTS {
        Some(PackError::TooManySlots(f.len() as usize))
    } else if let Some(i) = first_empty_slot(f, 0) {
        Some(PackError::EmptySlot(i as u16))
    } else if table_len(f) > u32::MAX {
        Some(PackError::TooLarge)
    } else {
        None
    }
}

/// No empty present slot from `i` on means every present slot there has bytes.
pub proof fn lemma_first_empty_slot(f: Seq<Option<Seq<u8>>>, i: nat)
    ensures
        first_empty_slot(f, i) is None <==> forall|j: int|
            i <= j < f.len() && f[j] is Some ==> #[trigger] f[j]->Some_0.len() > 0,
    decreases f.len() - i,
{
    if i < f.len() {
        lemma_first_empty_slot(f, i + 1);
    }
}

/// A list of slots packs exactly when it is packable.
pub proof fn lemma_pack_error(f: Seq<Option<Seq<u8>>>)
    ensures
        pack_error(f) is None <==> packable(f),
{
    lemma_first_empty_slot(f, 0);
}

/// The bytes that a slot contributes to the payload.
pub open spec fn content(s: Option<Seq<u8>>) -> Seq<u8> {
    match s {
        Some(d) => d,
        None => Seq::empty(),
    }
}

/// The payloads of the present slots of `f`, concatenated in index order.
pub open spec fn payload(f: Seq<Option<Seq<u8>>>) -> Seq<u8>
    decreases f.len(),
{
    if f.len() == 0 {
        Seq::empty()
    } else {
        payload(f.drop_last()) + content(f.last())
    }
}

/// Length of the table that encodes `f`.
pub open spec fn table_len(f: Seq<Option<Seq<u8>>>) -> nat {
    header_len(f.len()) + payload(f).len()
}

/// The offset word of slot `i`: zero when absent, else where its payload starts.
pub open spec fn slot_offset(f: Seq<Option<Seq<u8>>>, i: int) -> nat {
    if f[i] is None {
        0
    } else {
        header_len(f.len()) + payload(f.take(i)).len()
    }
}

/// The offset words of the first `k` slots of `f`.
pub open spec fn offset_words(f: Seq<Option<Seq<u8>>>, k: nat) -> Seq<u8>
    decreases k,
{
    if k == 0 {
        Seq::empty()
    } else {
        offset_words(f, (k - 1) as nat) + le_bytes(slot_offset(f, k - 1))
    }
}

/// The table that encodes `f`: count, offsets, total size, payload.
pub open spec fn encode(f: Seq<Option<Seq<u8>>>) -> Seq<u8> {
    le_bytes(f.len()) + offset_words(f, f.len()) + le_bytes(table_len(f)) + payload(f)
}

/// The payload of the first `i + 1` slots extends that of the first `i`.
pub proof fn lemma_payload_step(f: Seq<Option<Seq<u8>>>, i: int)
    requires
        0 <= i < f.len(),
    ensures
        payload(f.take(i + 1)) == payload(f.take(i)) + content(f[i]),
{
    assert(f.take(i + 1).drop_last() =~= f.take(i));
}

/// The payload of a prefix of the slots is no longer than the whole payload.
pub proof fn lemma_payload_prefix_len(f: Seq<Option<Seq<u8>>>, k: int)
    requires
        0 <= k <= f.len(),
    ensures
        payload(f.take(k)).len() <= payload(f).len(),
    decreases f.len() - k,
{
    if k == f.len() {
        assert(f.take(k) =~= f);
    } else {
        lemma_payload_step(f, k);
        lemma_payload_prefix_len(f, k + 1);
    }
}

/// Appends the bytes of `d` to `t`.
fn append_bytes(t: &mut Vec<u8>, d: &Vec<u8>)
    ensures
        final(t)@ == old(t)@ + d@,
{
    let ghost start = t@;
    let mut k: usize = 0;
    while k < d.len()
        invariant
            k <= d@.len(),
            t@ == start + d@.take(k as int),
        decreases d@.len() - k,
    {
        t.push(d[k]);
        k = k + 1;
        assert(t@ =~= start + d@.take(k as int));
    }
    assert(d@.take(k as int) =~= d@);
}

/// Encodes `slots` as a table: present payloads laid out in index order.
pub fn pack_table(slots: &Vec<Slot>) -> (r: Result<Vec<u8>, PackError>)
    ensures
        match r {
            Ok(t) => pack_error(slots_view(slots@)) is None && t@ == encode(slots_view(slots@)),
            Err(e) => pack_error(slots_view(slots@)) == Some(e),
        },
        r is Ok <==> packable(slots_view(slots@)),
{
    let ghost f = slots_view(slots@);
    proof {
        lemma_pack_error(f);
    }
    let n = slots.len();
    if n > MAX_SLOTS as usize {
        return Err(PackError::TooManySlots(n));
    }
    let mut i: usize = 0;
    while i < n
        invariant
            i <= n == slots@.len() == f.len() <= MAX_SLOTS,
            f == slots_view(slots@),
            first_empty_slot(f, 0) == first_empty_slot(f, i as nat),
        decreases n - i,
    {
        if let Slot::Present(d) = &slots[i] {
            if d.len() == 0 {
                return Err(PackError::EmptySlot(i as u16));
            }
        }
        i = i + 1;
    }
    // where the payload of the next present slot starts
    let mut pos: u32 = (WORD * n + 2 * WORD) as u32;
    let mut offsets: Vec<u32> = Vec::new();
    let mut i: usize = 0;
    while i < n
        invariant
            i <= n == slots@.len() == f.len(),
            f == slots_view(slots@),
            offsets@.len() == i,
            n <= MAX_SLOTS,
            first_empty_slot(f, 0) is None,
            pos == header_len(n as nat) + payload(f.take(i as int)).len(),
            forall|k: int| 0 <= k < i ==> offsets@[k] == slot_offset(f, k),
        decreases n - i,
    {
        proof {
            lemma_payload_step(f, i as int);
        }
        match &slots[i] {
            Slot::Absent => {
                offsets.push(0);
            },
            Slot::Present(d) => {
                if d.len() > (u32::MAX - pos) as usize {
                    proof {
                        lemma_payload_prefix_len(f, i + 1);
                    }
                    return Err(PackError::TooLarge);
                }
                offsets.push(pos);
                pos = pos + d.len() as u32;
            },
        }
        i = i + 1;
    }
    assert(f.take(n as int) =~= f);
    let mut t: Vec<u8> = Vec::new();
    push_u32_le(&mut t, n as u32);
    let mut i: usize = 0;
    while i < n
        invariant
            i <= n == f.len() == offsets@.len(),
            forall|k: int| 0 <= k < n ==> offsets@[k] == slot_offset(f, k),
            t@ == le_bytes(n as nat) + offset_words(f, i as nat),
        decreases n - i,
    {
        push_u32_le(&mut t, offsets[i]);
        i = i + 1;
        assert(t@ =~= le_bytes(n as nat) + offset_words(f, i as nat));
    }
    push_u32_le(&mut t, pos);
    let ghost head = t@;
    let mut i: usize = 0;
    while i < n
        invariant
            i <= n == slots@.len() == f.len(),
            f == slots_view(slots@),
            t@ == head + payload(f.take(i as int)),
        decreases n - i,
    {
        proof {
            lemma_payload_step(f, i as int);
        }
        match &slots[i] {
            Slot::Absent => {},
            Slot::Present(d) => {
                append_bytes(&mut t, d);
            },
        }
        i = i + 1;
        assert(t@ =~= head + payload(f.take(i as int)));
    }
    Ok(t)
}

} // verus!
