//! From the names in a directory to the file of each slot, in index order.
use vstd::prelude::*;
use crate::encode::PackError;
use crate::names::{classify, classify_name};

verus! {

/// A file whose name gives a slot index.
#[derive(Clone, Copy, Debug, PartialEq, Eq)]
pub struct SlotFile {
    /// The index that the name's stem gives.
    pub index: u16,
    /// Whether the name marks an absent slot.
    pub absent: bool,
    /// Position of the name in the list it was taken from.
    pub source: usize,
}

/// The names as byte sequences.
pub open spec fn names_view(names: Seq<Vec<u8>>) -> Seq<Seq<u8>> {
    Seq::new(names.len(), |i: int| names[i]@)
}

/// The slot file that the name at position `i` gives, if any.
pub open spec fn slot_file_of(name: Seq<u8>, i: int) -> Seq<SlotFile> {
    match classify(name) {
        Some((index, absent)) => seq![SlotFile { index, absent, source: i as usize }],
        None => Seq::empty(),
    }
}

/// The slot files among `names`, in the order of the names.
pub open spec fn slot_files(names: Seq<Seq<u8>>) -> Seq<SlotFile>
    decreases names.len(),
{
    if names.len() == 0 {
        Seq::empty()
    } else {
        slot_files(names.drop_last()) + slot_file_of(names.last(), names.len() - 1)
    }
}

/// `s` with `x` inserted after every element whose index is at most `x`'s.
pub open spec fn insert_by_index(s: Seq<SlotFile>, x: SlotFile) -> Seq<SlotFile>
    decreases s.len(),
{
    if s.len() == 0 {
        seq![x]
    } else if s.last().index > x.index {
        insert_by_index(s.drop_last(), x).push(s.last())
    } else {
        s.push(x)
    }
}

/// `c` sorted by index, files of equal index kept in their order in `c`.
pub open spec fn sort_by_index(c: Seq<SlotFile>) -> Seq<SlotFile>
    decreases c.len(),
{
    if c.len() == 0 {
        Seq::empty()
    } else {
        insert_by_index(sort_by_index(c.drop_last()), c.last())
    }
}

/// Whether the files of `s` come in order of index.
pub open spec fn index_sorted(s: Seq<SlotFile>) -> bool {
    forall|i: int, j: int| 0 <= i < j < s.len() ==> s[i].index <= s[j].index
}

proof fn lemma_insert_by_index(s: Seq<SlotFile>, x: SlotFile)
    requires
        index_sorted(s),
    ensures
        index_sorted(insert_by_index(s, x)),
        insert_by_index(s, x).to_multiset() == s.to_multiset().insert(x),
        forall|k: int|
            0 <= k < insert_by_index(s, x).len() ==> #[trigger] insert_by_index(s, x)[k] == x
                || s.contains(insert_by_index(s, x)[k]),
    decreases s.len(),
{
    broadcast use vstd::seq_lib::group_to_multiset_ensures;

    let r = insert_by_index(s, x);
    if s.len() == 0 {
        assert(r =~= Seq::<SlotFile>::empty().push(x));
    } else if s.last().index > x.index {
        let front = s.drop_last();
        let inner = insert_by_index(front, x);
        lemma_insert_by_index(front, x);
        assert(s =~= front.push(s.last()));
        assert forall|i: int, j: int| 0 <= i < j < r.len() implies r[i].index <= r[j].index by {
            if j == r.len() - 1 && inner[i] != x {
                let k = choose|k: int| 0 <= k < front.len() && front[k] == inner[i];
                assert(s[k] == front[k]);
            }
        }
        assert forall|k: int| 0 <= k < r.len() implies #[trigger] r[k] == x || s.contains(r[k]) by {
            if k < inner.len() && inner[k] != x {
                let m = choose|m: int| 0 <= m < front.len() && front[m] == inner[k];
                assert(s[m] == front[m]);
            } else if k == inner.len() {
                assert(s[s.len() - 1] == r[k]);
            }
        }
    } else {
        assert forall|k: int| 0 <= k < r.len() implies #[trigger] r[k] == x || s.contains(r[k]) by {
            if k < s.len() {
                assert(s[k] == r[k]);
            }
        }
    }
}

/// Sorting by index keeps every file, as often as it occurs, and puts the
/// files in order of index.
pub proof fn lemma_sort_by_index(c: Seq<SlotFile>)
    ensures
        index_sorted(sort_by_index(c)),
        sort_by_index(c).to_multiset() == c.to_multiset(),
    decreases c.len(),
{
    broadcast use vstd::seq_lib::group_to_multiset_ensures;

    if c.len() == 0 {
        assert(sort_by_index(c).to_multiset() =~= c.to_multiset());
    } else {
        lemma_sort_by_index(c.drop_last());
        lemma_insert_by_index(sort_by_index(c.drop_last()), c.last());
        assert(c =~= c.drop_last().push(c.last()));
    }
}

/// The first position at or after `k` whose file does not carry that position
/// as its index.
pub open spec fn first_misnumbered(s: Seq<SlotFile>, k: nat) -> Option<nat>
    decreases s.len() - k,
{
    if k >= s.len() {
        None
    } else if s[k as int].index != k {
        Some(k)
    } else {
        first_misnumbered(s, k + 1)
    }
}

/// The slot files of `names` in slot order, or why they do not number the
/// slots `0..n` once each.
pub open spec fn arrange(names: Seq<Seq<u8>>) -> Result<Seq<SlotFile>, PackError> {
    let s = sort_by_index(slot_files(names));
    if s.len() == 0 {
        Err(PackError::NoNumberedFiles)
    } else if let Some(k) = first_misnumbered(s, 0) {
        Err(PackError::Misnumbered { expected: k as usize, found: s[k as int].source })
    } else {
        Ok(s)
    }
}

/// With no misnumbered position from `k` on, each file there carries its position.
pub proof fn lemma_numbered_from(s: Seq<SlotFile>, k: nat)
    requires
        first_misnumbered(s, k) is None,
    ensures
        forall|j: int| k <= j < s.len() ==> #[trigger] s[j].index == j,
    decreases s.len() - k,
{
    if k < s.len() {
        lemma_numbered_from(s, k + 1);
    }
}

/// Inserts `x` into `s` as `insert_by_index` says.
fn insert_file(s: &mut Vec<SlotFile>, x: SlotFile)
    ensures
        final(s)@ == insert_by_index(old(s)@, x),
{
    let ghost s0 = s@;
    let mut p: usize = s.len();
    assert(s0.take(p as int) =~= s0);
    assert(s0.skip(p as int) =~= Seq::<SlotFile>::empty());
    while p > 0 && s[p - 1].index > x.index
        invariant
            p <= s0.len(),
            s@ == s0,
            insert_by_index(s0, x) == insert_by_index(s0.take(p as int), x) + s0.skip(p as int),
        decreases p,
    {
        assert(s0.take(p as int).drop_last() =~= s0.take(p - 1));
        assert(s0.skip(p - 1) =~= seq![s0[p - 1]] + s0.skip(p as int));
        assert(insert_by_index(s0.take(p - 1), x).push(s0[p - 1]) + s0.skip(p as int)
            =~= insert_by_index(s0.take(p - 1), x) + s0.skip(p - 1));
        p = p - 1;
    }
    s.insert(p, x);
    assert(s@ =~= s0.take(p as int).push(x) + s0.skip(p as int));
}

/// Picks the slot files out of `names` and puts them in slot order, checking
/// that they number the slots `0..n` once each.
pub fn order_files(names: &Vec<Vec<u8>>) -> (r: Result<Vec<SlotFile>, PackError>)
    ensures
        match r {
            Ok(v) => arrange(names_view(names@)) == Ok::<Seq<SlotFile>, PackError>(v@),
            Err(e) => arrange(names_view(names@)) == Err::<Seq<SlotFile>, PackError>(e),
        },
        r is Ok ==> forall|k: int| 0 <= k < r->Ok_0@.len() ==> #[trigger] r->Ok_0@[k].index == k,
        r is Ok ==> r->Ok_0@.to_multiset() == slot_files(names_view(names@)).to_multiset(),
{
    let ghost nv = names_view(names@);
    let mut sorted: Vec<SlotFile> = Vec::new();
    let mut i: usize = 0;
    while i < names.len()
        invariant
            i <= names@.len(),
            nv == names_view(names@),
            sorted@ == sort_by_index(slot_files(nv.take(i as int))),
        decreases names@.len() - i,
    {
        let ghost before = slot_files(nv.take(i as int));
        assert(nv.take(i + 1).drop_last() =~= nv.take(i as int));
        assert(nv[i as int] == names@[i as int]@);
        match classify_name(names[i].as_slice()) {
            Some((index, absent)) => {
                let x = SlotFile { index, absent, source: i };
                assert(slot_files(nv.take(i + 1)) =~= before.push(x));
                assert(slot_files(nv.take(i + 1)).drop_last() =~= before);
                insert_file(&mut sorted, x);
            },
            None => {
                assert(slot_files(nv.take(i + 1)) =~= before);
            },
        }
        i = i + 1;
    }
    assert(nv.take(i as int) =~= nv);
    if sorted.len() == 0 {
        return Err(PackError::NoNumberedFiles);
    }
    let mut k: usize = 0;
    while k < sorted.len()
        invariant
            k <= sorted@.len(),
            nv == names_view(names@),
            sorted@ == sort_by_index(slot_files(nv)),
            first_misnumbered(sorted@, 0) == first_misnumbered(sorted@, k as nat),
        decreases sorted@.len() - k,
    {
        if sorted[k].index as usize != k {
            return Err(PackError::Misnumbered { expected: k, found: sorted[k].source });
        }
        k = k + 1;
    }
    proof {
        lemma_numbered_from(sorted@, 0);
        lemma_sort_by_index(slot_files(nv));
    }
    Ok(sorted)
}

} // verus!
