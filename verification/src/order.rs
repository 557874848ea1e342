use vstd::prelude::*;
use crate::types::{ElementPosition, SlideElement, SlideElementView};

verus! {

/// The positions of the elements, each at the index of its element.
pub open spec fn positions_of(elements: Seq<SlideElementView>) -> Seq<ElementPosition> {
    Seq::new(elements.len(), |k: int| elements[k].position())
}

/// `order` with the index `k` put in behind every index whose position does
/// not come after that of `k`.
pub open spec fn inserted(order: Seq<int>, positions: Seq<ElementPosition>, k: int) -> Seq<int>
    decreases order.len(),
{
    if order.len() == 0 {
        seq![k]
    } else if positions[k].precedes(positions[order.last()]) {
        inserted(order.drop_last(), positions, k).push(order.last())
    } else {
        order.push(k)
    }
}

/// The first `n` indices in reading order: sorted by position, and by index
/// among those of one position.
pub open spec fn reading_order_of_first(positions: Seq<ElementPosition>, n: nat) -> Seq<int>
    decreases n,
{
    if n == 0 {
        Seq::empty()
    } else {
        inserted(reading_order_of_first(positions, (n - 1) as nat), positions, n - 1)
    }
}

/// The indices of all positions in reading order.
pub open spec fn reading_order(positions: Seq<ElementPosition>) -> Seq<int> {
    reading_order_of_first(positions, positions.len())
}

/// The elements in reading order.
pub open spec fn in_reading_order(elements: Seq<SlideElementView>) -> Seq<SlideElementView> {
    let order = reading_order(positions_of(elements));
    Seq::new(order.len(), |a: int| elements[order[a]])
}

/// Whether `order` lists indices below `n`, each at most once, by position
/// and, within one position, by index.
pub open spec fn is_sorted_stably(order: Seq<int>, positions: Seq<ElementPosition>, n: int) -> bool {
    &&& forall|a: int| 0 <= a < order.len() ==> 0 <= #[trigger] order[a] < n
    &&& forall|a: int, b: int|
        0 <= a < b < order.len() ==> {
            let first = positions[#[trigger] order[a]];
            let second = positions[#[trigger] order[b]];
            !second.precedes(first) && (first.precedes(second) || order[a] < order[b])
        }
}

proof fn lemma_inserted_at(order: Seq<int>, positions: Seq<ElementPosition>, k: int, j: int)
    requires
        0 <= j <= order.len(),
        forall|a: int| j <= a < order.len() ==> positions[k].precedes(positions[#[trigger] order[a]]),
        j > 0 ==> !positions[k].precedes(positions[order[j - 1]]),
    ensures
        inserted(order, positions, k) == order.insert(j, k),
    decreases order.len() - j,
{
    if j == order.len() {
        assert(order.insert(j, k) =~= order.push(k));
        if order.len() == 0 {
            assert(order.push(k) =~= seq![k]);
        }
    } else {
        let rest = order.drop_last();
        assert forall|a: int| j <= a < rest.len() implies positions[k].precedes(
            positions[#[trigger] rest[a]],
        ) by {
            assert(rest[a] == order[a]);
        }
        lemma_inserted_at(rest, positions, k, j);
        assert(rest.insert(j, k).push(order.last()) =~= order.insert(j, k));
    }
}

proof fn lemma_inserted_sorted(order: Seq<int>, positions: Seq<ElementPosition>, k: int)
    requires
        0 <= k < positions.len(),
        is_sorted_stably(order, positions, k),
    ensures
        is_sorted_stably(inserted(order, positions, k), positions, k + 1),
        inserted(order, positions, k).len() == order.len() + 1,
        inserted(order, positions, k).to_multiset() == order.to_multiset().insert(k),
    decreases order.len(),
{
    broadcast use vstd::seq_lib::group_to_multiset_ensures;

    if order.len() == 0 {
    } else if positions[k].precedes(positions[order.last()]) {
        let rest = order.drop_last();
        let last = order.last();
        assert forall|a: int| 0 <= a < rest.len() implies 0 <= #[trigger] rest[a] < k by {
            assert(rest[a] == order[a]);
        }
        assert forall|a: int, b: int| 0 <= a < b < rest.len() implies {
            let first = positions[#[trigger] rest[a]];
            let second = positions[#[trigger] rest[b]];
            !second.precedes(first) && (first.precedes(second) || rest[a] < rest[b])
        } by {
            assert(rest[a] == order[a]);
            assert(rest[b] == order[b]);
        }
        lemma_inserted_sorted(rest, positions, k);
        let inner = inserted(rest, positions, k);
        let out = inner.push(last);
        assert(order =~= rest.push(last));
        assert(order.to_multiset() == rest.to_multiset().insert(last));
        assert(out.to_multiset() =~= order.to_multiset().insert(k));
        assert forall|a: int| 0 <= a < out.len() implies 0 <= #[trigger] out[a] < k + 1 by {
            if a < inner.len() {
                assert(out[a] == inner[a]);
            } else {
                assert(out[a] == order[order.len() - 1]);
            }
        }
        assert forall|a: int, b: int| 0 <= a < b < out.len() implies {
            let first = positions[#[trigger] out[a]];
            let second = positions[#[trigger] out[b]];
            !second.precedes(first) && (first.precedes(second) || out[a] < out[b])
        } by {
            if b < inner.len() {
                assert(out[a] == inner[a]);
                assert(out[b] == inner[b]);
            } else {
                assert(out[a] == inner[a]);
                assert(out[b] == last);
                // every entry of `inner` is k or an entry of `rest`
                assert(inner.to_multiset().contains(inner[a]));
                if inner[a] == k {
                } else {
                    assert(rest.to_multiset().contains(inner[a]));
                    let c = choose|c: int| 0 <= c < rest.len() && rest[c] == inner[a];
                    assert(order[c] == rest[c]);
                    assert(order[order.len() - 1] == last);
                }
            }
        }
    } else {
        let out = order.push(k);
        assert(out.to_multiset() == order.to_multiset().insert(k));
        assert forall|a: int| 0 <= a < out.len() implies 0 <= #[trigger] out[a] < k + 1 by {
            if a < order.len() {
                assert(out[a] == order[a]);
            }
        }
        assert forall|a: int, b: int| 0 <= a < b < out.len() implies {
            let first = positions[#[trigger] out[a]];
            let second = positions[#[trigger] out[b]];
            !second.precedes(first) && (first.precedes(second) || out[a] < out[b])
        } by {
            assert(out[a] == order[a]);
            if b < order.len() {
                assert(out[b] == order[b]);
            } else {
                assert(out[b] == k);
                if a < order.len() - 1 {
                    assert(order[order.len() - 1] == order.last());
                }
            }
        }
    }
}

/// The reading order of the first `n` positions holds each index below `n`
/// once, sorted by position and then by index.
pub proof fn lemma_reading_order_of_first(positions: Seq<ElementPosition>, n: nat)
    requires
        n <= positions.len(),
    ensures
        reading_order_of_first(positions, n).len() == n,
        is_sorted_stably(reading_order_of_first(positions, n), positions, n as int),
        forall|k: int|
            reading_order_of_first(positions, n).to_multiset().count(k) == (if 0 <= k < n {
                1nat
            } else {
                0nat
            }),
    decreases n,
{
    broadcast use vstd::seq_lib::group_to_multiset_ensures;

    if n == 0 {
        assert(reading_order_of_first(positions, n) =~= Seq::<int>::empty());
    } else {
        let before = reading_order_of_first(positions, (n - 1) as nat);
        lemma_reading_order_of_first(positions, (n - 1) as nat);
        lemma_inserted_sorted(before, positions, n - 1);
    }
}

/// The indices of the elements in reading order.
pub fn sorted_indices(elements: &Vec<SlideElement>) -> (order: Vec<usize>)
    ensures
        order@.len() == elements@.len(),
        order@.map_values(|k: usize| k as int) == reading_order(
            positions_of(elements.deep_view()),
        ),
        forall|a: int| 0 <= a < order@.len() ==> #[trigger] order@[a] < elements@.len(),
{
    let ghost positions = positions_of(elements.deep_view());
    let mut order: Vec<usize> = Vec::new();
    let mut k: usize = 0;
    while k < elements.len()
        invariant
            k <= elements.len(),
            positions == positions_of(elements.deep_view()),
            order@.len() == k,
            order@.map_values(|i: usize| i as int) == reading_order_of_first(positions, k as nat),
            forall|a: int| 0 <= a < order@.len() ==> #[trigger] order@[a] < k,
        decreases elements.len() - k,
    {
        let position = elements[k].position();
        let ghost before = order@.map_values(|i: usize| i as int);
        let mut j: usize = order.len();
        while j > 0 && position.is_before(&elements[order[j - 1]].position())
            invariant
                j <= order.len(),
                k < elements.len(),
                positions == positions_of(elements.deep_view()),
                position == positions[k as int],
                before == order@.map_values(|i: usize| i as int),
                forall|a: int| 0 <= a < order@.len() ==> #[trigger] order@[a] < k,
                forall|a: int|
                    j <= a < before.len() ==> positions[k as int].precedes(
                        positions[#[trigger] before[a]],
                    ),
            decreases j,
        {
            j -= 1;
        }
        proof {
            lemma_inserted_at(before, positions, k as int, j as int);
        }
        order.insert(j, k);
        proof {
            assert(order@.map_values(|i: usize| i as int) =~= before.insert(j as int, k as int));
        }
        k += 1;
    }
    order
}

/// The place that the index `k` has in `order`.
pub open spec fn place_of(order: Seq<int>, k: int) -> int {
    choose|a: int| 0 <= a < order.len() && order[a] == k
}

/// Every index of a position has a place in the reading order.
pub proof fn lemma_reading_order_has_all(positions: Seq<ElementPosition>, k: int)
    requires
        0 <= k < positions.len(),
    ensures
        reading_order(positions).len() == positions.len(),
        0 <= place_of(reading_order(positions), k) < positions.len(),
        reading_order(positions)[place_of(reading_order(positions), k)] == k,
{
    broadcast use vstd::seq_lib::group_to_multiset_ensures;

    let order = reading_order(positions);
    lemma_reading_order_of_first(positions, positions.len());
    assert(order.to_multiset().count(k) == 1);
    assert(order.to_multiset().contains(k));
    assert(order.contains(k));
    let a = choose|a: int| 0 <= a < order.len() && order[a] == k;
    assert(0 <= a < order.len() && order[a] == k);
}

/// An index whose position comes before that of another has its place in
/// the reading order before the other's, and two indices of one position
/// keep their order.
pub proof fn lemma_reading_order_follows_positions(
    positions: Seq<ElementPosition>,
    i: int,
    j: int,
)
    requires
        0 <= i < positions.len(),
        0 <= j < positions.len(),
        positions[i].precedes(positions[j]) || (positions[i] == positions[j] && i < j),
    ensures
        place_of(reading_order(positions), i) < place_of(reading_order(positions), j),
{
    let order = reading_order(positions);
    lemma_reading_order_of_first(positions, positions.len());
    lemma_reading_order_has_all(positions, i);
    lemma_reading_order_has_all(positions, j);
    let a = place_of(order, i);
    let b = place_of(order, j);
    if b < a {
        assert(!positions[order[a]].precedes(positions[order[b]]));
        assert(positions[order[b]].precedes(positions[order[a]]) || order[b] < order[a]);
    }
}

} // verus!
