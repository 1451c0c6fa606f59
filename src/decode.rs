//! Decoding a table buffer into its slots.
use vstd::prelude::*;
use crate::layout::{header_len, read_u32_le, slots_view, u32_at, Slot, MAX_SLOTS, WORD};

verus! {

/// Why a buffer is not a well-formed table.
#[derive(Clone, Copy, Debug, PartialEq, Eq)]
pub enum UnpackError {
    /// The buffer ends inside the header.
    Truncated,
    /// The declared slot count does not fit in 16 bits.
    TooManyEntries(u32),
    /// The declared total size differs from the buffer's length.
    SizeMismatch { declared: u32, actual: usize },
    /// A present slot whose end is not past its start.
    EmptyEntry(u16),
    /// A present slot whose end lies past the end of the buffer.
    EntryOutOfBounds(u16),
}

/// The declared slot count.
pub open spec fn entry_count(t: Seq<u8>) -> nat {
    u32_at(t, 0)
}

/// The offset word of slot `j`; for `j == n` it is the declared total size.
pub open spec fn offset_word(t: Seq<u8>, j: int) -> nat {
    u32_at(t, 4 + 4 * j)
}

/// What is wrong with the header of `t`, checked in this order, if anything.
pub open spec fn header_error(t: Seq<u8>) -> Option<UnpackError> {
    if t.len() < 4 {
        Some(UnpackError::Truncated)
    } else if entry_count(t) > MAX_SLOTS {
        Some(UnpackError::TooManyEntries(entry_count(t) as u32))
    } else if t.len() < header_len(entry_count(t)) {
        Some(UnpackError::Truncated)
    } else if offset_word(t, entry_count(t) as int) != t.len() {
        Some(
            UnpackError::SizeMismatch {
                declared: offset_word(t, entry_count(t) as int) as u32,
                actual: t.len() as usize,
            },
        )
    } else {
        None
    }
}

/// The first non-zero offset word among slots `j..n`, or the total size.
pub open spec fn end_from(t: Seq<u8>, n: nat, j: nat) -> nat
    decreases n - j,
{
    if j >= n {
        offset_word(t, n as int)
    } else if offset_word(t, j as int) != 0 {
        offset_word(t, j as int)
    } else {
        end_from(t, n, j + 1)
    }
}

/// Where the payload of slot `i` ends.
pub open spec fn end_of(t: Seq<u8>, n: nat, i: nat) -> nat {
    end_from(t, n, i + 1)
}

/// What is wrong with slot `i` of a table of `n` slots, if anything.
pub open spec fn slot_error(t: Seq<u8>, n: nat, i: nat) -> Option<UnpackError> {
    let start = offset_word(t, i as int);
    if start == 0 {
        None
    } else if end_of(t, n, i) <= start {
        Some(UnpackError::EmptyEntry(i as u16))
    } else if end_of(t, n, i) > t.len() {
        Some(UnpackError::EntryOutOfBounds(i as u16))
    } else {
        None
    }
}

/// The first error among slots `i..n`.
pub open spec fn first_slot_error(t: Seq<u8>, n: nat, i: nat) -> Option<UnpackError>
    decreases n - i,
{
    if i >= n {
        None
    } else if slot_error(t, n, i) is Some {
        slot_error(t, n, i)
    } else {
        first_slot_error(t, n, i + 1)
    }
}

/// Slot `i`: absent for a zero offset, else the bytes from its offset to its end.
pub open spec fn slot_value(t: Seq<u8>, n: nat, i: nat) -> Option<Seq<u8>> {
    let start = offset_word(t, i as int);
    if start == 0 {
        None
    } else {
        Some(t.subrange(start as int, end_of(t, n, i) as int))
    }
}

/// What decoding `t` gives: the first error found, or every slot in order.
pub open spec fn decode(t: Seq<u8>) -> Result<Seq<Option<Seq<u8>>>, UnpackError> {
    if let Some(e) = header_error(t) {
        Err(e)
    } else if let Some(e) = first_slot_error(t, entry_count(t), 0) {
        Err(e)
    } else {
        Ok(Seq::new(entry_count(t), |i: int| slot_value(t, entry_count(t), i as nat)))
    }
}

/// Checks the header of `table` and returns its slot count.
pub fn read_header(table: &[u8]) -> (r: Result<u16, UnpackError>)
    ensures
        match r {
            Ok(n) => header_error(table@) is None && n == entry_count(table@),
            Err(e) => header_error(table@) == Some(e),
        },
{
    if table.len() < WORD {
        return Err(UnpackError::Truncated);
    }
    let count = read_u32_le(table, 0);
    if count > MAX_SLOTS {
        return Err(UnpackError::TooManyEntries(count));
    }
    let n = count as usize;
    if table.len() < WORD * n + 2 * WORD {
        return Err(UnpackError::Truncated);
    }
    let declared = read_u32_le(table, WORD + WORD * n);
    if declared as usize != table.len() {
        return Err(UnpackError::SizeMismatch { declared, actual: table.len() });
    }
    Ok(count as u16)
}

/// Where the payload of slot `i` ends: the first non-zero offset word after
/// it, the total size if all of them are zero.
pub fn offset_of_end(i: u16, entry_count: u16, table: &[u8]) -> (r: usize)
    requires
        header_error(table@) is None,
        entry_count == crate::decode::entry_count(table@),
        i < entry_count,
    ensures
        r == end_of(table@, entry_count as nat, i as nat),
{
    let n = entry_count as usize;
    let mut j: usize = i as usize + 1;
    loop
        invariant
            i < j <= n,
            n == entry_count,
            header_error(table@) is None,
            n == crate::decode::entry_count(table@),
            end_of(table@, n as nat, i as nat) == end_from(table@, n as nat, j as nat),
        decreases n - j,
    {
        let word = read_u32_le(table, WORD + WORD * j);
        if j == n || word != 0 {
            return word as usize;
        }
        j = j + 1;
    }
}

/// Copies bytes `start..end` of `table`.
fn copy_range(table: &[u8], start: usize, end: usize) -> (r: Vec<u8>)
    requires
        start <= end <= table@.len(),
    ensures
        r@ == table@.subrange(start as int, end as int),
{
    let mut out: Vec<u8> = Vec::new();
    let mut k: usize = start;
    while k < end
        invariant
            start <= k <= end <= table@.len(),
            out@ == table@.subrange(start as int, k as int),
        decreases end - k,
    {
        out.push(table[k]);
        k = k + 1;
        assert(out@ =~= table@.subrange(start as int, k as int));
    }
    out
}

/// Decodes slot `i` of a table whose header is well-formed.
pub fn decode_slot(table: &[u8], entry_count: u16, i: u16) -> (r: Result<Slot, UnpackError>)
    requires
        header_error(table@) is None,
        entry_count == crate::decode::entry_count(table@),
        i < entry_count,
    ensures
        match r {
            Ok(s) => slot_error(table@, entry_count as nat, i as nat) is None && s@ == slot_value(
                table@,
                entry_count as nat,
                i as nat,
            ),
            Err(e) => slot_error(table@, entry_count as nat, i as nat) == Some(e),
        },
{
    let start = read_u32_le(table, WORD + WORD * (i as usize)) as usize;
    if start == 0 {
        return Ok(Slot::Absent);
    }
    let end = offset_of_end(i, entry_count, table);
    if end <= start {
        return Err(UnpackError::EmptyEntry(i));
    }
    if end > table.len() {
        return Err(UnpackError::EntryOutOfBounds(i));
    }
    Ok(Slot::Present(copy_range(table, start, end)))
}

/// Decodes a whole table into its slots, in index order.
pub fn unpack_table(table: &[u8]) -> (r: Result<Vec<Slot>, UnpackError>)
    ensures
        match r {
            Ok(v) => decode(table@) == Ok::<Seq<Option<Seq<u8>>>, UnpackError>(slots_view(v@)),
            Err(e) => decode(table@) == Err::<Seq<Option<Seq<u8>>>, UnpackError>(e),
        },
{
    let count = match read_header(table) {
        Ok(c) => c,
        Err(e) => return Err(e),
    };
    let ghost t = table@;
    let ghost n = count as nat;
    let mut out: Vec<Slot> = Vec::new();
    let mut i: u16 = 0;
    while i < count
        invariant
            i <= count,
            header_error(t) is None,
            t == table@,
            n == count,
            count == entry_count(t),
            first_slot_error(t, n, 0) == first_slot_error(t, n, i as nat),
            slots_view(out@) == Seq::new(i as nat, |k: int| slot_value(t, n, k as nat)),
        decreases count - i,
    {
        match decode_slot(table, count, i) {
            Ok(s) => {
                let ghost before = out@;
                let ghost v = s@;
                out.push(s);
                assert(out@ == before.push(s));
                assert(slots_view(out@) =~= slots_view(before).push(v));
            },
            Err(e) => {
                return Err(e);
            },
        }
        i = i + 1;
        assert(slots_view(out@) =~= Seq::new(i as nat, |k: int| slot_value(t, n, k as nat)));
    }
    assert(slots_view(out@) =~= Seq::new(entry_count(t), |k: int| slot_value(t, n, k as nat)));
    Ok(out)
}

} // verus!
