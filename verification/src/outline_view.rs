//! Decisions an outline view makes about focus: where a focus move lands in
//! the visible order, and whether Backspace deletes a block and where focus
//! goes then.

use vstd::prelude::*;
use crate::forest::{find_path, get_spec, lemma_find_from, node_at};
use crate::outline::{children_at, BlockId, Outline};
use crate::text::str_len;

verus! {

broadcast use vstd::seq_lib::group_seq_properties;

pub open spec fn ids_of(flat: Seq<(usize, BlockId)>) -> Seq<u64> {
    flat.map_values(|x: (usize, BlockId)| x.1.0)
}

/// The first position of `id` in `ids`.
pub open spec fn index_of(ids: Seq<u64>, id: u64) -> Option<int>
    decreases ids.len(),
{
    if ids.len() == 0 {
        None
    } else if ids[0] == id {
        Some(0)
    } else {
        match index_of(ids.drop_first(), id) {
            Some(i) => Some(i + 1),
            None => None,
        }
    }
}

proof fn lemma_index_of(ids: Seq<u64>, id: u64)
    ensures
        match index_of(ids, id) {
            Some(i) => 0 <= i < ids.len() && ids[i] == id && forall|j: int| 0 <= j < i ==> #[trigger] ids[j] != id,
            None => forall|j: int| 0 <= j < ids.len() ==> #[trigger] ids[j] != id,
        },
    decreases ids.len(),
{
    if ids.len() > 0 {
        lemma_index_of(ids.drop_first(), id);
        assert forall|j: int| 0 < j < ids.len() implies ids.drop_first()[j - 1] == #[trigger] ids[j] by {}
    }
}

fn find_index(flat: &[(usize, BlockId)], id: BlockId) -> (r: Option<usize>)
    ensures
        match index_of(ids_of(flat@), id.0) {
            Some(i) => r matches Some(k) && k as int == i,
            None => r is None,
        },
{
    let ghost ids = ids_of(flat@);
    let mut i: usize = 0;
    while i < flat.len()
        invariant
            i <= flat.len(),
            ids == ids_of(flat@),
            forall|j: int| 0 <= j < i ==> #[trigger] ids[j] != id.0,
        decreases flat.len() - i,
    {
        assert(ids[i as int] == flat@[i as int].1.0);
        if flat[i].1.0 == id.0 {
            proof {
                lemma_index_of(ids, id.0);
            }
            return Some(i);
        }
        i += 1;
    }
    proof {
        lemma_index_of(ids, id.0);
    }
    None
}

/// Where a focus move of `delta` rows from `current` lands in the visible
/// order `ids`: nowhere when `current` is not listed or the move would leave
/// the list (moves stop at both ends).
pub open spec fn focus_step_spec(ids: Seq<u64>, current: u64, delta: int) -> Option<u64> {
    match index_of(ids, current) {
        Some(i) => if 0 <= i + delta < ids.len() {
            Some(ids[i + delta])
        } else {
            None
        },
        None => None,
    }
}

/// The block a focus move of `delta` rows from `current` lands on, in the
/// visible order `flat`.
pub fn focus_step(flat: &[(usize, BlockId)], current: BlockId, delta: isize) -> (r: Option<BlockId>)
    ensures
        match focus_step_spec(ids_of(flat@), current.0, delta as int) {
            Some(t) => r matches Some(b) && b.0 == t,
            None => r is None,
        },
{
    let idx = match find_index(flat, current) {
        Some(i) => i,
        None => {
            return None;
        },
    };
    proof {
        lemma_index_of(ids_of(flat@), current.0);
    }
    let j: i128 = idx as i128 + delta as i128;
    if j < 0 || j >= flat.len() as i128 {
        return None;
    }
    assert(ids_of(flat@)[j as int] == flat@[j as int].1.0);
    Some(flat[j as usize].1)
}

/// Backspace on `current` deletes it when its text is empty, it has no
/// children, and it is not the only visible block; focus then goes to the
/// visible block before it, or after it when it is the first. The result is
/// that block, or nothing when Backspace leaves the block alone.
pub open spec fn backspace_spec(outline: Seq<crate::forest::Node>, ids: Seq<u64>, current: u64) -> Option<u64> {
    let deletable = get_spec(outline, current) == Some(Seq::<char>::empty()) && match find_path(outline, current) {
        Some(p) => node_at(outline, p).children.len() == 0,
        None => false,
    };
    if !deletable || ids.len() <= 1 {
        None
    } else {
        match index_of(ids, current) {
            Some(i) => Some(
                if i > 0 {
                    ids[i - 1]
                } else {
                    ids[1]
                },
            ),
            None => None,
        }
    }
}

/// The block to focus after Backspace deletes `current`, given the visible
/// order `flat` of `outline`; nothing when Backspace leaves `current` alone.
pub fn backspace_target(outline: &Outline, flat: &[(usize, BlockId)], current: BlockId) -> (r: Option<BlockId>)
    ensures
        match backspace_spec(outline@, ids_of(flat@), current.0) {
            Some(t) => r matches Some(b) && b.0 == t,
            None => r is None,
        },
{
    let empty = match outline.get(current) {
        Some(t) => str_len(t) == 0,
        None => false,
    };
    let childless = match outline.path_to(current) {
        Some(p) => {
            proof {
                lemma_find_from(outline@, current.0, 0);
            }
            children_at(outline.roots(), &p).len() == 0
        },
        None => false,
    };
    if !(empty && childless) || flat.len() <= 1 {
        return None;
    }
    let idx = match find_index(flat, current) {
        Some(i) => i,
        None => {
            return None;
        },
    };
    proof {
        lemma_index_of(ids_of(flat@), current.0);
    }
    if idx > 0 {
        assert(ids_of(flat@)[idx - 1] == flat@[idx - 1].1.0);
        Some(flat[idx - 1].1)
    } else {
        assert(ids_of(flat@)[1] == flat@[1].1.0);
        Some(flat[1].1)
    }
}

} // verus!
