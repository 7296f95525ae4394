use crate::def::{first_index, in_subtree, is_block_size, level_for, marked, MAX_NODES};
use crate::tree::BinTree;
use vstd::arithmetic::power2::{lemma_pow2_pos, lemma_pow2_unfold, pow2};
use vstd::prelude::*;

verus! {

/// Each level starts `2^(l - 1)` indices after the level above it: level `l`
/// holds exactly `2^(l - 1)` nodes, so the node count doubles per level.
pub proof fn lemma_level_width(t: BinTree, l: nat)
    requires
        t.is_tree(),
        1 <= l <= t.height(),
    ensures
        first_index(l + 1) - first_index(l) == pow2((l - 1) as nat),
{
    lemma_pow2_unfold(l);
}

/// Marking a subtree with one state and then with the other leaves exactly
/// what marking it with the second state alone leaves: `unuse_mem` undoes
/// `use_mem` (and the reverse) over the same set of nodes. Where that subtree
/// was all free before, `use_mem` then `unuse_mem` restores every bit.
pub proof fn lemma_mark_inverse(t: BinTree, idx: nat)
    requires
        t.is_tree(),
    ensures
        marked(marked(t.bits(), idx, t.last_node() as nat, true), idx, t.last_node() as nat, false)
            == marked(t.bits(), idx, t.last_node() as nat, false),
        marked(marked(t.bits(), idx, t.last_node() as nat, false), idx, t.last_node() as nat, true)
            == marked(t.bits(), idx, t.last_node() as nat, true),
        (forall|i: int|
            0 <= i <= t.last_node() && in_subtree(idx, i as nat) ==> !#[trigger] t.bits()[i])
            ==> marked(
            marked(t.bits(), idx, t.last_node() as nat, true),
            idx,
            t.last_node() as nat,
            false,
        ) == t.bits(),
{
    lemma_pow2_unfold(t.height());
    lemma_pow2_pos((t.height() - 1) as nat);
    let b = t.bits();
    let m = t.last_node() as nat;
    assert(marked(marked(b, idx, m, true), idx, m, false) =~= marked(b, idx, m, false));
    assert(marked(marked(b, idx, m, false), idx, m, true) =~= marked(b, idx, m, true));
    if forall|i: int| 0 <= i <= t.last_node() && in_subtree(idx, i as nat) ==> !#[trigger] b[i] {
        assert forall|i: int| 0 <= i < b.len() implies #[trigger] marked(b, idx, m, false)[i]
            == b[i] by {
            if i <= m && in_subtree(idx, i as nat) {
                assert(!b[i]);
            }
        }
        assert(marked(b, idx, m, false) =~= b);
    }
}

/// On a freshly laid tree, marking the node that `find` gives for a free
/// block used and then free again leaves the node free and every other bit,
/// its siblings' and ancestors' included, as it was.
pub proof fn lemma_use_then_free(t: BinTree, size: nat, idx: int)
    requires
        t.is_tree(),
        t.bits() == Seq::new(MAX_NODES as nat, |i: int| i > t.last_node()),
        is_block_size(t.height(), size),
        t.is_first_fit(idx, level_for(t.height(), size), false),
    ensures
        ({
            let m = t.last_node() as nat;
            let after = marked(marked(t.bits(), idx as nat, m, true), idx as nat, m, false);
            &&& !after[idx]
            &&& forall|i: int| 0 <= i < MAX_NODES && !in_subtree(idx as nat, i as nat)
                ==> #[trigger] after[i] == t.bits()[i]
            &&& after == t.bits()
        }),
{
    lemma_mark_inverse(t, idx as nat);
}

} // verus!
