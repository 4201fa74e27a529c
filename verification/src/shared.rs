//! The shared arrays of a launch, by block and name.

use vstd::prelude::*;

use crate::search;
use crate::text::same_text;

verus! {

/// One allocated shared array: whose it is and how it was asked for.
#[derive(Clone, Copy, Debug)]
pub struct SharedEntry {
    pub block: u32,
    pub name: &'static str,
    /// The number of the element type.
    pub tag: u64,
    pub len: usize,
}

/// What asking for a shared array comes to.
#[derive(Clone, Copy, Debug, PartialEq, Eq, Structural)]
pub enum SharedRequest {
    /// Nobody in the block had asked: the array goes into this new slot.
    Fresh(usize),
    /// The array is the one in this slot.
    Known(usize),
    /// The name was used with a different element type.
    OtherType,
    /// The name was used with a different length.
    OtherLength,
}

/// Which entries are the block's array of this name.
pub open spec fn named(entries: Seq<SharedEntry>, block: u32, name: Seq<char>) -> spec_fn(
    int,
) -> bool {
    |i: int| entries[i].block == block && entries[i].name@ == name
}

/// The slot of the block's array of this name.
pub open spec fn slot_of(entries: Seq<SharedEntry>, block: u32, name: Seq<char>) -> Option<int> {
    search::first_below(named(entries, block, name), entries.len() as int)
}

/// What asking comes to.
pub open spec fn request_result(
    entries: Seq<SharedEntry>,
    block: u32,
    name: Seq<char>,
    tag: u64,
    len: usize,
) -> SharedRequest {
    match slot_of(entries, block, name) {
        None => SharedRequest::Fresh(entries.len() as usize),
        Some(i) => if entries[i].tag != tag {
            SharedRequest::OtherType
        } else if entries[i].len != len {
            SharedRequest::OtherLength
        } else {
            SharedRequest::Known(i as usize)
        },
    }
}

/// The entries after asking.
pub open spec fn entries_after(
    entries: Seq<SharedEntry>,
    block: u32,
    name: &'static str,
    tag: u64,
    len: usize,
) -> Seq<SharedEntry> {
    match slot_of(entries, block, name@) {
        None => entries.push(SharedEntry { block, name, tag, len }),
        Some(_) => entries,
    }
}

/// The shared arrays that were asked for so far.
pub struct SharedTable {
    entries: Vec<SharedEntry>,
}

impl View for SharedTable {
    type V = Seq<SharedEntry>;

    closed spec fn view(&self) -> Seq<SharedEntry> {
        self.entries@
    }
}

impl SharedTable {
    pub fn new() -> (r: SharedTable)
        ensures
            r@ == Seq::<SharedEntry>::empty(),
    {
        SharedTable { entries: Vec::new() }
    }

    /// Asks for a block-wide `__shared__` array. The first thread of the
    /// block to ask creates it; later calls with the same name get the same
    /// array, and may not change its element type or length.
    pub fn request(
        &mut self,
        block: u32,
        name: &'static str,
        tag: u64,
        len: usize,
    ) -> (r: SharedRequest)
        ensures
            r == request_result(old(self)@, block, name@, tag, len),
            final(self)@ == entries_after(old(self)@, block, name, tag, len),
    {
        let ghost entries = self.entries@;
        let ghost p = named(entries, block, name@);
        let n: usize = self.entries.len();
        let mut i: usize = 0;
        while i < n
            invariant
                i <= n,
                n == entries.len(),
                self.entries@ == entries,
                old(self)@ == entries,
                p == named(entries, block, name@),
                search::first_below(p, i as int) is None,
            decreases n - i,
        {
            let e: SharedEntry = self.entries[i];
            assert(p(i as int) == (e.block == block && e.name@ == name@));
            if e.block == block && same_text(e.name, name) {
                proof {
                    search::lemma_first_below_stays(p, i as int, n as int);
                }
                if e.tag != tag {
                    return SharedRequest::OtherType;
                }
                if e.len != len {
                    return SharedRequest::OtherLength;
                }
                return SharedRequest::Known(i);
            }
            i = i + 1;
        }
        self.entries.push(SharedEntry { block, name, tag, len });
        SharedRequest::Fresh(n)
    }
}

/// Every later call with the same name in the same block gets the array the
/// first call made.
pub proof fn later_calls_get_the_same_array(
    entries: Seq<SharedEntry>,
    block: u32,
    name: &'static str,
    tag: u64,
    len: usize,
)
    requires
        entries.len() < usize::MAX,
        slot_of(entries, block, name@) is None,
    ensures
        request_result(entries, block, name@, tag, len) == SharedRequest::Fresh(
            entries.len() as usize,
        ),
        request_result(
            entries_after(entries, block, name, tag, len),
            block,
            name@,
            tag,
            len,
        ) == SharedRequest::Known(entries.len() as usize),
{
    let after = entries_after(entries, block, name, tag, len);
    let n = entries.len() as int;
    let p = named(entries, block, name@);
    let q = named(after, block, name@);
    search::lemma_first_below(p, n);
    search::lemma_first_below(q, n);
    assert(forall|j: int| 0 <= j < n ==> #[trigger] q(j) == p(j));
    assert(q(n));
    search::lemma_first_below_stays(q, n, n + 1);
}

/// Blocks do not share arrays: what one block asks for does not change what
/// another block gets.
pub proof fn blocks_have_their_own_arrays(
    entries: Seq<SharedEntry>,
    block: u32,
    name: &'static str,
    tag: u64,
    len: usize,
    other_block: u32,
    other_name: Seq<char>,
)
    requires
        other_block != block,
    ensures
        slot_of(entries_after(entries, block, name, tag, len), other_block, other_name) == slot_of(
            entries,
            other_block,
            other_name,
        ),
{
    let after = entries_after(entries, block, name, tag, len);
    let n = entries.len() as int;
    let p = named(entries, other_block, other_name);
    let q = named(after, other_block, other_name);
    search::lemma_first_below(p, n);
    search::lemma_first_below(q, n);
    assert(forall|j: int| 0 <= j < n ==> #[trigger] q(j) == p(j));
    assert(forall|j: int| 0 <= j < n ==> q(j) == #[trigger] p(j));
    if slot_of(entries, block, name@) is None {
        assert(!q(n));
        assert(search::first_below(q, n + 1) == search::first_below(q, n));
    }
}

/// What asking for a shared array gives: a fresh one exactly when the block has
/// none of that name, and else the one it has, if the type and the length are
/// the same. A different type is complained about before a different length.
pub proof fn shared_arrays_are_found_by_block_and_name(
    entries: Seq<SharedEntry>,
    block: u32,
    name: Seq<char>,
    tag: u64,
    len: usize,
)
    requires
        entries.len() < usize::MAX,
        forall|i: int, j: int|
            0 <= i < j < entries.len() ==> !((#[trigger] entries[i]).block == (
            #[trigger] entries[j]).block && entries[i].name@ == entries[j].name@),
    ensures
        ({
            let r = request_result(entries, block, name, tag, len);
            &&& r is Fresh <==> forall|i: int|
                0 <= i < entries.len() ==> !((#[trigger] entries[i]).block == block
                    && entries[i].name@ == name)
            &&& r is Fresh ==> r == SharedRequest::Fresh(entries.len() as usize)
            &&& forall|i: int|
                0 <= i < entries.len() && (#[trigger] entries[i]).block == block
                    && entries[i].name@ == name ==> r == if entries[i].tag != tag {
                    SharedRequest::OtherType
                } else if entries[i].len != len {
                    SharedRequest::OtherLength
                } else {
                    SharedRequest::Known(i as usize)
                }
        }),
{
    let p = named(entries, block, name);
    search::lemma_first_below(p, entries.len() as int);
    assert forall|i: int| 0 <= i < entries.len() implies (p(i) <==> (#[trigger] entries[i]).block
        == block && entries[i].name@ == name) by {}
    if let Some(k) = slot_of(entries, block, name) {
        assert(p(k));
        assert forall|i: int|
            0 <= i < entries.len() && (#[trigger] entries[i]).block == block && entries[i].name@
                == name implies i == k by {
            if i < k {
                assert(!(entries[i].block == entries[k].block && entries[i].name@
                    == entries[k].name@));
            } else if k < i {
                assert(!(entries[k].block == entries[i].block && entries[k].name@
                    == entries[i].name@));
            }
        }
    } else {
        assert forall|i: int| 0 <= i < entries.len() implies !((#[trigger] entries[i]).block
            == block && entries[i].name@ == name) by {
            assert(!p(i));
        }
    }
}

/// A request that is not met by an array there is adds one with what was asked
/// for, and no other request adds any, so a block never has two of one name.
pub proof fn no_name_is_taken_twice(
    entries: Seq<SharedEntry>,
    block: u32,
    name: &'static str,
    tag: u64,
    len: usize,
)
    requires
        forall|i: int, j: int|
            0 <= i < j < entries.len() ==> !((#[trigger] entries[i]).block == (
            #[trigger] entries[j]).block && entries[i].name@ == entries[j].name@),
    ensures
        ({
            let after = entries_after(entries, block, name, tag, len);
            &&& forall|i: int, j: int|
                0 <= i < j < after.len() ==> !((#[trigger] after[i]).block == (
                #[trigger] after[j]).block && after[i].name@ == after[j].name@)
            &&& after == entries || after == entries.push(SharedEntry { block, name, tag, len })
            &&& exists|i: int|
                0 <= i < after.len() && (#[trigger] after[i]).block == block && after[i].name@
                    == name@
        }),
{
    let p = named(entries, block, name@);
    let n = entries.len() as int;
    search::lemma_first_below(p, n);
    let after = entries_after(entries, block, name, tag, len);
    if let Some(k) = slot_of(entries, block, name@) {
        assert(p(k));
        assert(after[k].block == block);
    } else {
        assert(after[n].block == block);
        assert forall|i: int, j: int| 0 <= i < j < after.len() implies !((
        #[trigger] after[i]).block == (#[trigger] after[j]).block && after[i].name@
            == after[j].name@) by {
            assert(after[i] == entries[i]);
            if j < n {
                assert(after[j] == entries[j]);
            } else {
                assert(!p(i));
            }
        }
    }
}

} // verus!
