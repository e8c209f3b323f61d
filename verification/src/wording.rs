//! What numbers, ids and errors read like.

use vstd::prelude::*;

use crate::error::CacheError;
use crate::launch;
use crate::pool::Pool;
use crate::text;
use crate::types::{BlockId, PhysicalSlot, SeqId};

verus! {

/// The number that a row of decimal digits stands for.
pub open spec fn number(s: Seq<char>) -> nat
    decreases s.len(),
{
    if s.len() == 0 {
        0
    } else {
        number(s.drop_last()) * 10 + (s.last() as nat - 48) as nat
    }
}

/// A number that is written out can be read back: it consists of decimal
/// digits, does not begin with a zero unless it is zero, and stands for itself.
pub proof fn numbers_read_back(n: nat)
    ensures
        text::decimal(n).len() > 0,
        forall|i: int|
            0 <= i < text::decimal(n).len() ==> '0' <= #[trigger] text::decimal(n)[i] <= '9',
        n > 0 ==> text::decimal(n)[0] != '0',
        n == 0 ==> text::decimal(n).len() == 1,
        number(text::decimal(n)) == n,
    decreases n,
{
    let s = text::decimal(n);
    if n >= 10 {
        numbers_read_back(n / 10);
        assert(s.drop_last() =~= text::decimal(n / 10));
        assert(s.last() == text::digit(n % 10));
    } else {
        assert(s.drop_last() =~= Seq::empty());
        assert(number(s.drop_last()) == 0);
        assert(s.last() == text::digit(n));
    }
}

/// The label of a block is `#` and its number, that of a sequence `seq` and its
/// number, and that of an address its block's with the slot in brackets: each
/// can be read back.
pub proof fn labels_read_back(block: BlockId, id: SeqId, at: PhysicalSlot)
    ensures
        block.label()[0] == '#',
        number(block.label().skip(1)) == block.0,
        block.label().skip(1) == text::decimal(block.0 as nat),
        id.label().take(3) == seq!['s', 'e', 'q'],
        number(id.label().skip(3)) == id.0,
        id.label().skip(3) == text::decimal(id.0 as nat),
        at.label().take(at.block.label().len() as int) == at.block.label(),
        at.label()[at.block.label().len() as int] == '[',
        at.label().last() == ']',
        at.label().subrange(at.block.label().len() + 1int, at.label().len() - 1) == text::decimal(
            at.slot as nat,
        ),
{
    reveal_strlit("#");
    reveal_strlit("seq");
    reveal_strlit("[");
    reveal_strlit("]");
    numbers_read_back(block.0 as nat);
    numbers_read_back(id.0 as nat);
    assert(block.label().skip(1) =~= text::decimal(block.0 as nat));
    assert(id.label().skip(3) =~= text::decimal(id.0 as nat));
    assert(id.label().take(3) =~= seq!['s', 'e', 'q']);
    assert(at.label().take(at.block.label().len() as int) =~= at.block.label());
    assert(at.label().subrange(at.block.label().len() + 1int, at.label().len() - 1)
        =~= text::decimal(at.slot as nat));
}

/// Three pieces of wording around two details.
pub open spec fn sentence(
    w: (Seq<char>, Seq<char>, Seq<char>),
    x: Seq<char>,
    y: Seq<char>,
) -> Seq<char> {
    w.0 + x + w.1 + y + w.2
}

/// The details of an error, in the order in which its sentence gives them.
pub open spec fn details(e: CacheError) -> (Seq<char>, Seq<char>) {
    let none: Seq<char> = Seq::empty();
    match e {
        CacheError::OutOfBlocks { requested, available } => (
            text::decimal(requested as nat),
            text::decimal(available as nat),
        ),
        CacheError::InvalidBlock { id, num_blocks } => (
            id.label(),
            text::decimal(num_blocks as nat),
        ),
        CacheError::BlockNotAllocated { id } => (id.label(), none),
        CacheError::RefCountOverflow { id, max } => (id.label(), text::decimal(max as nat)),
        CacheError::SlotOutOfRange { slot, block_size } => (
            text::decimal(slot as nat),
            text::decimal(block_size as nat),
        ),
        CacheError::ShapeMismatch { expected, actual } => (
            text::decimal(expected as nat),
            text::decimal(actual as nat),
        ),
        CacheError::InvalidLayer { layer, num_layers } => (
            text::decimal(layer as nat),
            text::decimal(num_layers as nat),
        ),
        CacheError::UnknownSequence { id } => (id.label(), none),
        CacheError::Device(msg) => (msg@, none),
    }
}

/// The two errors are of one kind.
pub open spec fn same_kind(a: CacheError, b: CacheError) -> bool {
    match a {
        CacheError::OutOfBlocks { .. } => b is OutOfBlocks,
        CacheError::InvalidBlock { .. } => b is InvalidBlock,
        CacheError::BlockNotAllocated { .. } => b is BlockNotAllocated,
        CacheError::RefCountOverflow { .. } => b is RefCountOverflow,
        CacheError::SlotOutOfRange { .. } => b is SlotOutOfRange,
        CacheError::ShapeMismatch { .. } => b is ShapeMismatch,
        CacheError::InvalidLayer { .. } => b is InvalidLayer,
        CacheError::UnknownSequence { .. } => b is UnknownSequence,
        CacheError::Device(..) => b is Device,
    }
}

/// Errors of one kind read alike: the same wording around the details of each,
/// all of which are named.
pub proof fn errors_of_a_kind_read_alike(a: CacheError, b: CacheError)
    requires
        same_kind(a, b),
    ensures
        exists|w: (Seq<char>, Seq<char>, Seq<char>)|
            a.text() == #[trigger] sentence(w, details(a).0, details(a).1) && b.text() == sentence(
                w,
                details(b).0,
                details(b).1,
            ),
{
    let none: Seq<char> = Seq::empty();
    let w = match a {
        CacheError::OutOfBlocks { .. } => (
            "out of KV blocks: requested "@,
            ", only "@,
            " free"@,
        ),
        CacheError::InvalidBlock { .. } => ("invalid block "@, ": pool holds "@, " blocks"@),
        CacheError::BlockNotAllocated { .. } => (
            "block "@,
            " is not allocated (refcount 0)"@,
            none,
        ),
        CacheError::RefCountOverflow { .. } => (
            "refcount overflow on block "@,
            " (max "@,
            ")"@,
        ),
        CacheError::SlotOutOfRange { .. } => ("slot "@, " out of range for block size "@, none),
        CacheError::ShapeMismatch { .. } => (
            "shape mismatch: expected "@,
            " elements, got "@,
            none,
        ),
        CacheError::InvalidLayer { .. } => ("invalid layer "@, ": model has "@, " layers"@),
        CacheError::UnknownSequence { .. } => (
            "no sequence with id "@,
            " is running or waiting"@,
            none,
        ),
        CacheError::Device(..) => ("device error: "@, none, none),
    };
    assert(a.text() =~= sentence(w, details(a).0, details(a).1));
    assert(b.text() =~= sentence(w, details(b).0, details(b).1));
}

/// Entry `i` of the free list names no block.
pub open spec fn strays(p: Pool, i: int) -> bool {
    p.free[i].0 >= p.num_blocks
}

/// Entry `i` of the free list repeats an earlier one.
pub open spec fn repeats(p: Pool, i: int) -> bool {
    !strays(p, i) && exists|j: int| 0 <= j < i && p.free[j] == p.free[i]
}

/// Entry `i` of the free list names a block that has owners.
pub open spec fn intrudes(p: Pool, i: int) -> bool {
    !strays(p, i) && !repeats(p, i) && p.counts[p.free[i].0 as int] != 0
}

/// Block `i` has no owners and is not on the free list.
pub open spec fn is_lost(p: Pool, i: int) -> bool {
    p.counts[i] == 0 && !p.free.contains(BlockId(i as u32))
}

/// Nothing is wrong with an entry of the free list that names a block without
/// owners for the first time, and with a block that has owners or is free. What
/// is wrong with others is said in the same words for every pool, with the block
/// and the number of its owners.
pub proof fn faults_read_alike(p: Pool, i: int, q: Pool, j: int)
    ensures
        p.free_fault(i) is None <==> !strays(p, i) && !repeats(p, i) && !intrudes(p, i),
        p.lost_fault(i) is None <==> !is_lost(p, i),
        strays(p, i) && strays(q, j) ==> exists|w: (Seq<char>, Seq<char>, Seq<char>)|
            p.free_fault(i) == Some(#[trigger] sentence(w, p.free[i].label(), Seq::empty()))
                && q.free_fault(j) == Some(sentence(w, q.free[j].label(), Seq::empty())),
        repeats(p, i) && repeats(q, j) ==> exists|w: (Seq<char>, Seq<char>, Seq<char>)|
            p.free_fault(i) == Some(#[trigger] sentence(w, p.free[i].label(), Seq::empty()))
                && q.free_fault(j) == Some(sentence(w, q.free[j].label(), Seq::empty())),
        intrudes(p, i) && intrudes(q, j) ==> exists|w: (Seq<char>, Seq<char>, Seq<char>)|
            p.free_fault(i) == Some(
                #[trigger] sentence(
                    w,
                    p.free[i].label(),
                    text::decimal(p.counts[p.free[i].0 as int]),
                ),
            ) && q.free_fault(j) == Some(
                sentence(w, q.free[j].label(), text::decimal(q.counts[q.free[j].0 as int])),
            ),
        is_lost(p, i) && is_lost(q, j) ==> exists|w: (Seq<char>, Seq<char>, Seq<char>)|
            p.lost_fault(i) == Some(
                #[trigger] sentence(w, text::decimal(i as nat), Seq::empty()),
            ) && q.lost_fault(j) == Some(sentence(w, text::decimal(j as nat), Seq::empty())),
{
    let none: Seq<char> = Seq::empty();
    if strays(p, i) && strays(q, j) {
        let w = ("free list holds out-of-range block "@, none, none);
        assert(p.free_fault(i)->0 =~= sentence(w, p.free[i].label(), none));
        assert(q.free_fault(j)->0 =~= sentence(w, q.free[j].label(), none));
    }
    if repeats(p, i) && repeats(q, j) {
        let w = ("block "@, " appears twice on the free list"@, none);
        assert(p.free_fault(i)->0 =~= sentence(w, p.free[i].label(), none));
        assert(q.free_fault(j)->0 =~= sentence(w, q.free[j].label(), none));
    }
    if intrudes(p, i) && intrudes(q, j) {
        let w = ("block "@, " is on the free list but has refcount "@, none);
        let a = text::decimal(p.counts[p.free[i].0 as int]);
        let b = text::decimal(q.counts[q.free[j].0 as int]);
        assert(p.free_fault(i)->0 =~= sentence(w, p.free[i].label(), a));
        assert(q.free_fault(j)->0 =~= sentence(w, q.free[j].label(), b));
    }
    if is_lost(p, i) && is_lost(q, j) {
        let w = ("block #"@, " has refcount 0 but is not free"@, none);
        assert(p.lost_fault(i)->0 =~= sentence(w, text::decimal(i as nat), none));
        assert(q.lost_fault(j)->0 =~= sentence(w, text::decimal(j as nat), none));
    }
}

/// No entry of the free list is wrong, and no block is lost.
pub open spec fn faultless(p: Pool) -> bool {
    &&& forall|j: int|
        0 <= j < p.free.len() ==> !strays(p, j) && !(#[trigger] repeats(p, j)) && !intrudes(p, j)
    &&& forall|j: int| 0 <= j < p.num_blocks ==> !(#[trigger] is_lost(p, j))
}

/// A pool is reported for the first fault of its free list, or, if that has
/// none, for the first block that is lost. It is consistent exactly if it has
/// neither.
pub proof fn first_fault_is_reported(p: Pool, i: int, fault: Seq<char>)
    requires
        p.num_blocks <= u32::MAX + 1,
        p.counts.len() == p.num_blocks,
    ensures
        p.consistent() <==> faultless(p),
        0 <= i < p.free.len() && p.free_fault(i) is Some && (forall|j: int|
            0 <= j < i ==> #[trigger] p.free_fault(j) is None) ==> (p.is_first_fault(fault)
            <==> p.free_fault(i) == Some(fault)),
        0 <= i < p.num_blocks && p.lost_fault(i) is Some && (forall|j: int|
            0 <= j < p.free.len() ==> #[trigger] p.free_fault(j) is None) && (forall|j: int|
            0 <= j < i ==> #[trigger] p.lost_fault(j) is None) ==> (p.is_first_fault(fault)
            <==> p.lost_fault(i) == Some(fault)),
{
    if p.consistent() {
        assert forall|j: int| 0 <= j < p.free.len() implies !strays(p, j) && !(
        #[trigger] repeats(p, j)) && !intrudes(p, j) by {
            assert(p.has(p.free[j]));
            assert(p.count(p.free[j]) == 0);
        }
        assert forall|j: int| 0 <= j < p.num_blocks implies !(#[trigger] is_lost(p, j)) by {
            let b = BlockId(j as u32);
            assert(p.has(b));
            assert(p.count(b) == p.counts[j]);
        }
    }
    if faultless(p) {
        assert forall|j: int| 0 <= j < p.free.len() implies p.has(#[trigger] p.free[j]) && p.count(
            p.free[j],
        ) == 0 by {
            assert(!repeats(p, j));
        }
        assert(p.free.no_duplicates()) by {
            assert forall|a: int, b: int|
                0 <= a < p.free.len() && 0 <= b < p.free.len() && a != b implies p.free[a]
                != p.free[b] by {
                assert(!repeats(p, a) && !repeats(p, b));
            }
        }
        assert forall|b: BlockId| p.has(b) && #[trigger] p.count(b) == 0 implies p.free.contains(
            b,
        ) by {
            assert(!is_lost(p, b.0 as int));
            assert(BlockId(b.0 as int as u32) == b);
        }
        assert(p.consistent());
    }
}

/// The name of a device tells the size of its pool in whole mebibytes: pools
/// have one name exactly if they have as many of them.
pub proof fn device_names_tell_mebibytes(a: usize, b: usize, mib: nat)
    requires
        mib * 1048576 <= a < (mib + 1) * 1048576,
    ensures
        launch::device_label(a).skip(8).take(text::decimal(mib).len() as int) == text::decimal(mib),
        launch::device_label(a).len() == 8 + text::decimal(mib).len() + 10,
        launch::device_label(a) == launch::device_label(b) <==> mib * 1048576 <= b < (mib + 1)
            * 1048576,
{
    reveal_strlit("cuda:0 (");
    reveal_strlit(" MiB pool)");
    let x = (a / 1048576) as nat;
    let y = (b / 1048576) as nat;
    assert(x == mib);
    let p = launch::device_label(a);
    let q = launch::device_label(b);
    let d = text::decimal(x);
    let e = text::decimal(y);
    assert(p.skip(8).take(d.len() as int) =~= d);
    if p == q {
        assert(d.len() == e.len());
        assert(q.skip(8).take(e.len() as int) =~= e);
        numbers_read_back(x);
        numbers_read_back(y);
    }
}

} // verus!
