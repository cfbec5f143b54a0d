//! The commitment to a memory state: a fold of its cells into one field
//! element.

use crate::scalar::{add_mod, modulus, Scalar};
use vstd::arithmetic::div_mod::{lemma_add_mod_noop, lemma_add_mod_noop_right, lemma_small_mod};
use vstd::prelude::*;

verus! {

/// The integers that a sequence of field elements stands for.
pub open spec fn values(s: Seq<Scalar>) -> Seq<nat> {
    s.map_values(|x: Scalar| x@)
}

/// Every element of the sequence is in canonical form.
pub open spec fn all_wf(s: Seq<Scalar>) -> bool {
    forall|i: int| 0 <= i < s.len() ==> (#[trigger] s[i]).wf()
}

/// What two nodes combine to. It is additive for now: a binding compression
/// function has to take its place before the commitment protects anything.
pub open spec fn combine(left: nat, right: nat) -> nat {
    add_mod(add_mod(left, right), 1)
}

/// The commitment to a sequence of cells: the last two are combined into one,
/// the later as the left node, until one is left. The empty sequence has no
/// commitment; 0 stands in for it.
pub open spec fn commit(cells: Seq<nat>) -> nat
    decreases cells.len(),
{
    if cells.len() == 0 {
        0
    } else if cells.len() == 1 {
        cells[0]
    } else {
        let n = cells.len() as int;
        commit(cells.subrange(0, n - 2).push(combine(cells[n - 1], cells[n - 2])))
    }
}

/// The sum of the cells.
pub open spec fn sum(cells: Seq<nat>) -> nat
    decreases cells.len(),
{
    if cells.len() == 0 {
        0
    } else {
        sum(cells.drop_last()) + cells.last()
    }
}

/// Every cell is below the field's order.
pub open spec fn below_modulus(cells: Seq<nat>) -> bool {
    forall|i: int| 0 <= i < cells.len() ==> #[trigger] cells[i] < modulus()
}

/// The commitment to cells of the field is an element of the field.
pub proof fn lemma_commit_below_modulus(cells: Seq<nat>)
    requires
        cells.len() > 0,
        below_modulus(cells),
    ensures
        commit(cells) < modulus(),
    decreases cells.len(),
{
    if cells.len() > 1 {
        let n = cells.len() as int;
        lemma_commit_below_modulus(
            cells.subrange(0, n - 2).push(combine(cells[n - 1], cells[n - 2])),
        );
    }
}

/// While the nodes are combined by addition, the commitment is the sum of
/// the cells and of 1 for each combination, in the field. So it does not
/// depend on which nodes are paired.
pub proof fn lemma_commit_is_sum(cells: Seq<nat>)
    requires
        cells.len() > 0,
        below_modulus(cells),
    ensures
        commit(cells) == (sum(cells) + cells.len() - 1) % (modulus() as int),
    decreases cells.len(),
{
    let q = modulus() as int;
    let n = cells.len() as int;
    if n == 1 {
        assert(cells.drop_last().len() == 0);
        assert(sum(cells.drop_last()) == 0);
        lemma_small_mod(cells[0], modulus());
    } else {
        let left = cells[n - 1];
        let right = cells[n - 2];
        let rest = cells.subrange(0, n - 2);
        let node = combine(left, right);
        let folded = rest.push(node);
        lemma_commit_is_sum(folded);
        assert(folded.drop_last() == rest);
        assert(cells.drop_last().drop_last() == rest);
        assert(sum(cells) == sum(cells.drop_last()) + left);
        assert(cells.drop_last().last() == right);
        assert(sum(cells.drop_last()) == sum(rest) + right);
        assert(sum(folded) == sum(rest) + node);
        lemma_add_mod_noop((left + right) as int, 1, q);
        lemma_small_mod(1, modulus());
        assert(node == (left + right + 1) as int % q);
        lemma_add_mod_noop_right(sum(rest) + n - 2, (left + right + 1) as int, q);
    }
}

/// Combines two nodes.
pub fn combine_nodes(left: Scalar, right: Scalar) -> (out: Scalar)
    requires
        left.wf(),
        right.wf(),
    ensures
        out.wf(),
        out@ == combine(left@, right@),
{
    left.add(right).add(Scalar::one())
}

/// The commitment to the cells.
pub fn commit_cells(cells: &Vec<Scalar>) -> (root: Scalar)
    requires
        cells.len() > 0,
        all_wf(cells@),
    ensures
        root.wf(),
        root@ == commit(values(cells@)),
{
    let mut tmp: Vec<Scalar> = Vec::new();
    let mut i: usize = 0;
    while i < cells.len()
        invariant
            i <= cells.len(),
            tmp@ == cells@.subrange(0, i as int),
        decreases cells.len() - i,
    {
        tmp.push(cells[i]);
        i = i + 1;
    }
    assert(tmp@ == cells@);
    let mut size: usize = tmp.len();
    while size > 1
        invariant
            size == tmp.len(),
            size >= 1,
            all_wf(tmp@),
            commit(values(tmp@)) == commit(values(cells@)),
        decreases size,
    {
        let mut left_over: usize = size;
        while left_over > 1
            invariant
                size >= 2,
                left_over <= size,
                (size - left_over) % 2 == 0,
                tmp.len() == size - (size - left_over) / 2,
                all_wf(tmp@),
                commit(values(tmp@)) == commit(values(cells@)),
            decreases left_over,
        {
            let ghost before = tmp@;
            let n: usize = tmp.len();
            let left = tmp[n - 1];
            let right = tmp[n - 2];
            tmp.pop();
            tmp.pop();
            let out = combine_nodes(left, right);
            tmp.push(out);
            proof {
                assert(values(tmp@) =~= values(before).subrange(0, n - 2).push(
                    combine(values(before)[n - 1], values(before)[n - 2]),
                ));
            }
            left_over = left_over - 2;
        }
        size = tmp.len();
    }
    tmp[0]
}

} // verus!
