//! Slot files of an unpacked directory: `{index}.bin` holds a present slot,
//! `{index}.ignore` marks an absent one. Names whose stem is not a 16-bit
//! number are not slot files and are passed over.
use vstd::prelude::*;

verus! {

/// The byte `.`.
pub const DOT: u8 = 46;

/// The byte `+`.
pub const PLUS: u8 = 43;

/// The byte `0`.
pub const ZERO: u8 = 48;

/// The extension that marks an absent slot: `ignore`.
pub open spec fn ignore_ext() -> Seq<u8> {
    seq![105u8, 103u8, 110u8, 111u8, 114u8, 101u8]
}

pub open spec fn is_digit(b: u8) -> bool {
    ZERO <= b <= ZERO + 9
}

pub open spec fn all_digits(s: Seq<u8>) -> bool {
    forall|i: int| 0 <= i < s.len() ==> is_digit(#[trigger] s[i])
}

/// The number that the decimal digits `s` write.
pub open spec fn decimal_value(s: Seq<u8>) -> nat
    decreases s.len(),
{
    if s.len() == 0 {
        0
    } else {
        decimal_value(s.drop_last()) * 10 + (s.last() - ZERO) as nat
    }
}

/// The digits of a number: `s` without one leading `+`.
pub open spec fn digits_of(s: Seq<u8>) -> Seq<u8> {
    if s.len() > 0 && s[0] == PLUS {
        s.drop_first()
    } else {
        s
    }
}

/// The 16-bit number that `s` writes in decimal (an optional `+`, then at
/// least one digit; leading zeros allowed), if any.
pub open spec fn index_value(s: Seq<u8>) -> Option<u16> {
    let d = digits_of(s);
    if d.len() > 0 && all_digits(d) && decimal_value(d) <= u16::MAX {
        Some(decimal_value(d) as u16)
    } else {
        None
    }
}

/// Position of the last `.` in `s`, or -1.
pub open spec fn last_dot(s: Seq<u8>) -> int
    decreases s.len(),
{
    if s.len() == 0 {
        -1
    } else if s.last() == DOT {
        s.len() - 1
    } else {
        last_dot(s.drop_last())
    }
}

/// Whether a file name has an extension: a `.` after its first byte, `..` aside.
pub open spec fn has_extension(name: Seq<u8>) -> bool {
    name != seq![DOT, DOT] && last_dot(name) > 0
}

/// The name without its extension.
pub open spec fn file_stem(name: Seq<u8>) -> Seq<u8> {
    if has_extension(name) {
        name.take(last_dot(name))
    } else {
        name
    }
}

/// The extension of the name, empty if it has none.
pub open spec fn extension(name: Seq<u8>) -> Seq<u8> {
    if has_extension(name) {
        name.skip(last_dot(name) + 1)
    } else {
        Seq::empty()
    }
}

/// The slot index of a file name and whether it marks an absent slot, or
/// `None` for a name that is no slot file.
pub open spec fn classify(name: Seq<u8>) -> Option<(u16, bool)> {
    match index_value(file_stem(name)) {
        Some(i) => Some((i, extension(name) == ignore_ext())),
        None => None,
    }
}

/// Parses a slot index written in decimal.
pub fn parse_index(s: &[u8]) -> (r: Option<u16>)
    ensures
        r == index_value(s@),
{
    let ghost d = digits_of(s@);
    let start: usize = if s.len() > 0 && s[0] == PLUS {
        1
    } else {
        0
    };
    assert(d =~= s@.skip(start as int));
    if start == s.len() {
        return None;
    }
    // the value so far, held at 65536 once it passes the largest index
    let mut acc: u32 = 0;
    let mut k: usize = start;
    while k < s.len()
        invariant
            start <= k <= s@.len(),
            d == s@.skip(start as int),
            d == digits_of(s@),
            all_digits(d.take(k - start)),
            acc as nat == if decimal_value(d.take(k - start)) <= 65536 {
                decimal_value(d.take(k - start))
            } else {
                65536
            },
        decreases s@.len() - k,
    {
        let b = s[k];
        let j = k - start;
        assert(d[j as int] == b);
        if b < ZERO || b > ZERO + 9 {
            assert(!is_digit(d[j as int]));
            assert(!all_digits(d));
            return None;
        }
        assert(d.take(j + 1).drop_last() =~= d.take(j as int));
        let next = acc * 10 + (b - ZERO) as u32;
        acc = if next > 65536 {
            65536
        } else {
            next
        };
        k = k + 1;
    }
    assert(d.take(k - start) =~= d);
    if acc > 65535 {
        None
    } else {
        Some(acc as u16)
    }
}

/// Length of the stem of a file name, which is always a prefix of it.
fn stem_len(name: &[u8]) -> (r: usize)
    ensures
        r <= name@.len(),
        name@.take(r as int) == file_stem(name@),
        has_extension(name@) ==> r == last_dot(name@) && r < name@.len(),
        !has_extension(name@) ==> r == name@.len(),
{
    let mut j: usize = name.len();
    assert(name@.take(j as int) =~= name@);
    while j > 0 && name[j - 1] != DOT
        invariant
            j <= name@.len(),
            last_dot(name@) == last_dot(name@.take(j as int)),
        decreases j,
    {
        assert(name@.take(j as int).drop_last() =~= name@.take(j - 1));
        j = j - 1;
    }
    if j > 0 {
        assert(name@.take(j as int).drop_last() =~= name@.take(j - 1));
    }
    if j <= 1 || (name.len() == 2 && name[0] == DOT && name[1] == DOT) {
        proof {
            if name@.len() == 2 && name@[0] == DOT && name@[1] == DOT {
                assert(name@ =~= seq![DOT, DOT]);
            }
        }
        assert(name@.take(name@.len() as int) =~= name@);
        name.len()
    } else {
        assert(name@ != seq![DOT, DOT]);
        j - 1
    }
}

/// Whether bytes `from..` of `name` are exactly `ignore`.
fn is_ignore_ext(name: &[u8], from: usize) -> (r: bool)
    requires
        from <= name@.len(),
    ensures
        r == (name@.skip(from as int) == ignore_ext()),
{
    let tail = name.len() - from;
    if tail != 6 {
        assert(name@.skip(from as int).len() != ignore_ext().len());
        return false;
    }
    let r = name[from] == 105u8 && name[from + 1] == 103u8 && name[from + 2] == 110u8 && name[from
        + 3] == 111u8 && name[from + 4] == 114u8 && name[from + 5] == 101u8;
    if r {
        assert(name@.skip(from as int) =~= ignore_ext());
    } else {
        assert(name@.skip(from as int) != ignore_ext()) by {
            if name@.skip(from as int) == ignore_ext() {
                assert(name@.skip(from as int)[0] == ignore_ext()[0]);
                assert(name@.skip(from as int)[1] == ignore_ext()[1]);
                assert(name@.skip(from as int)[2] == ignore_ext()[2]);
                assert(name@.skip(from as int)[3] == ignore_ext()[3]);
                assert(name@.skip(from as int)[4] == ignore_ext()[4]);
                assert(name@.skip(from as int)[5] == ignore_ext()[5]);
            }
        }
    }
    r
}

/// The slot index of a file name and whether it marks an absent slot.
pub fn classify_name(name: &[u8]) -> (r: Option<(u16, bool)>)
    ensures
        r == classify(name@),
{
    let len = stem_len(name);
    let stem = &name[0..len];
    assert(stem@ =~= file_stem(name@));
    let index = match parse_index(stem) {
        Some(i) => i,
        None => return None,
    };
    let absent = if len < name.len() {
        is_ignore_ext(name, len + 1)
    } else {
        false
    };
    proof {
        if !has_extension(name@) {
            assert(extension(name@).len() != ignore_ext().len());
        }
    }
    Some((index, absent))
}

} // verus!

verus! {

/// The decimal digits of `v`, without leading zeros.
pub open spec fn decimal_digits(v: nat) -> Seq<u8>
    decreases v,
{
    if v < 10 {
        seq![(ZERO + v) as u8]
    } else {
        decimal_digits(v / 10).push((ZERO + v % 10) as u8)
    }
}

/// The extension that marks a present slot: `bin`.
pub open spec fn bin_ext() -> Seq<u8> {
    seq![98u8, 105u8, 110u8]
}

/// The name of the file that holds slot `index`: `{index}.bin` when present,
/// `{index}.ignore` when absent.
pub open spec fn slot_file_name_of(index: u16, present: bool) -> Seq<u8> {
    decimal_digits(index as nat) + seq![DOT] + if present {
        bin_ext()
    } else {
        ignore_ext()
    }
}

/// The digits of `v` are digits, and write `v`.
pub proof fn lemma_decimal_digits(v: nat)
    ensures
        decimal_digits(v).len() > 0,
        all_digits(decimal_digits(v)),
        decimal_value(decimal_digits(v)) == v,
    decreases v,
{
    if v >= 10 {
        lemma_decimal_digits(v / 10);
        assert(decimal_digits(v).drop_last() =~= decimal_digits(v / 10));
        assert(decimal_digits(v).last() == ZERO + v % 10);
        assert((v / 10) * 10 + v % 10 == v);
        assert(decimal_value(decimal_digits(v)) == v);
    } else {
        assert(decimal_digits(v).drop_last() =~= Seq::<u8>::empty());
        assert(decimal_value(Seq::<u8>::empty()) == 0);
        assert(decimal_value(decimal_digits(v)) == v);
    }
}

/// The last `.` of `d.e` is the one after `d` when `e` holds none.
pub proof fn lemma_last_dot_of_split(d: Seq<u8>, e: Seq<u8>)
    requires
        forall|i: int| 0 <= i < e.len() ==> e[i] != DOT,
    ensures
        last_dot(d + seq![DOT] + e) == d.len(),
    decreases e.len(),
{
    if e.len() > 0 {
        assert((d + seq![DOT] + e).drop_last() =~= d + seq![DOT] + e.drop_last());
        lemma_last_dot_of_split(d, e.drop_last());
    } else {
        assert((d + seq![DOT] + e).drop_last() =~= d);
    }
}

/// A slot file's name gives back its index and whether the slot is absent.
pub proof fn lemma_slot_file_name(index: u16, present: bool)
    ensures
        classify(slot_file_name_of(index, present)) == Some((index, !present)),
{
    let d = decimal_digits(index as nat);
    let e = if present {
        bin_ext()
    } else {
        ignore_ext()
    };
    let name = slot_file_name_of(index, present);
    lemma_decimal_digits(index as nat);
    lemma_last_dot_of_split(d, e);
    assert(name.len() > 2);
    assert(name != seq![DOT, DOT]);
    assert(file_stem(name) =~= d);
    assert(extension(name) =~= e);
    assert(digits_of(d) == d);
    if present {
        assert(e.len() != ignore_ext().len());
    }
}

/// Appends the decimal digits of `v` to `out`.
fn push_decimal(out: &mut Vec<u8>, v: u16)
    ensures
        final(out)@ == old(out)@ + decimal_digits(v as nat),
    decreases v,
{
    if v >= 10 {
        push_decimal(out, v / 10);
    }
    out.push(ZERO + (v % 10) as u8);
    assert(final(out)@ =~= old(out)@ + decimal_digits(v as nat));
}

/// The name of the file that holds slot `index`.
pub fn slot_file_name(index: u16, present: bool) -> (r: Vec<u8>)
    ensures
        r@ == slot_file_name_of(index, present),
        classify(r@) == Some((index, !present)),
{
    let mut out: Vec<u8> = Vec::new();
    push_decimal(&mut out, index);
    out.push(DOT);
    if present {
        out.push(98u8);
        out.push(105u8);
        out.push(110u8);
    } else {
        out.push(105u8);
        out.push(103u8);
        out.push(110u8);
        out.push(111u8);
        out.push(114u8);
        out.push(101u8);
    }
    assert(out@ =~= slot_file_name_of(index, present));
    proof {
        lemma_slot_file_name(index, present);
    }
    out
}

} // verus!
