//! Little-endian 32-bit words and the fixed parts of the table layout.
use vstd::prelude::*;

verus! {

/// Size in bytes of one header word.
pub const WORD: usize = 4;

/// Largest number of slots that a table may declare.
pub const MAX_SLOTS: u32 = 65535;

/// One slot of a table: absent, or present with its payload bytes.
#[derive(Debug, PartialEq, Eq)]
pub enum Slot {
    Absent,
    Present(Vec<u8>),
}

impl View for Slot {
    type V = Option<Seq<u8>>;

    open spec fn view(&self) -> Option<Seq<u8>> {
        match self {
            Slot::Absent => None,
            Slot::Present(d) => Some(d@),
        }
    }
}

/// The slots of `s`, each as `None` (absent) or its payload bytes.
pub open spec fn slots_view(s: Seq<Slot>) -> Seq<Option<Seq<u8>>> {
    Seq::new(s.len(), |i: int| s[i]@)
}

/// Number of bytes before the payload of a table with `n` slots: the count,
/// `n` offsets and the total size.
pub open spec fn header_len(n: nat) -> nat {
    4 * n + 8
}

/// The little-endian value of the four bytes of `t` that start at `pos`.
pub open spec fn u32_at(t: Seq<u8>, pos: int) -> nat {
    (t[pos] as nat) + 256 * (t[pos + 1] as nat) + 65536 * (t[pos + 2] as nat) + 16777216 * (
    t[pos + 3] as nat)
}

/// The four little-endian bytes of `v`.
pub open spec fn le_bytes(v: nat) -> Seq<u8> {
    seq![
        (v % 256) as u8,
        ((v / 256) % 256) as u8,
        ((v / 65536) % 256) as u8,
        ((v / 16777216) % 256) as u8,
    ]
}

/// Reading back the bytes of a 32-bit value gives the value.
pub proof fn lemma_le_bytes_read(v: nat, t: Seq<u8>, pos: int)
    requires
        v <= u32::MAX,
        0 <= pos,
        pos + 4 <= t.len(),
        t.subrange(pos, pos + 4) == le_bytes(v),
    ensures
        u32_at(t, pos) == v,
{
    assert(t[pos] == le_bytes(v)[0]);
    assert(t[pos + 1] == le_bytes(v)[1]);
    assert(t[pos + 2] == le_bytes(v)[2]);
    assert(t[pos + 3] == le_bytes(v)[3]);
    let x = v as u32;
    assert(x == (x % 256) + 256 * ((x / 256) % 256) + 65536 * ((x / 65536) % 256) + 16777216 * (
    (x / 16777216) % 256)) by (bit_vector);
}

/// Reads the little-endian word of `t` at `pos`.
pub fn read_u32_le(t: &[u8], pos: usize) -> (r: u32)
    requires
        pos + 4 <= t@.len(),
    ensures
        r as nat == u32_at(t@, pos as int),
{
    let b0 = t[pos] as u32;
    let b1 = t[pos + 1] as u32;
    let b2 = t[pos + 2] as u32;
    let b3 = t[pos + 3] as u32;
    b0 + 256 * b1 + 65536 * b2 + 16777216 * b3
}

/// Appends the four little-endian bytes of `v` to `t`.
pub fn push_u32_le(t: &mut Vec<u8>, v: u32)
    ensures
        final(t)@ == old(t)@ + le_bytes(v as nat),
{
    t.push((v % 256) as u8);
    t.push(((v / 256) % 256) as u8);
    t.push(((v / 65536) % 256) as u8);
    t.push(((v / 16777216) % 256) as u8);
    assert(final(t)@ =~= old(t)@ + le_bytes(v as nat));
}

} // verus!
