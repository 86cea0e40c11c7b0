//! What holds of totals: when a chain counts as a cycle, how a total is made
//! up of the totals further down the chain, and how a change of one value
//! shows in the totals of the values that lead to it.

use crate::value_rc::{
    add_checked, chain_total, links_in_range, sum_within, value_total, Fault, Value,
};
use vstd::prelude::*;
use vstd::set_lib::{lemma_int_range, lemma_len_subset, set_int_range};

verus! {

/// The chain of `value` ends after at most `fuel` links.
pub open spec fn ends_within(nodes: Seq<Value>, value: Value, fuel: nat) -> bool
    decreases fuel,
{
    match value.next {
        None => true,
        Some(n) => fuel > 0 && ends_within(nodes, nodes[n as int], (fuel - 1) as nat),
    }
}

/// `nodes`, but for the number of the value with handle `x`, which is
/// `number`.
pub open spec fn renumbered(nodes: Seq<Value>, x: int, number: isize) -> Seq<Value> {
    nodes.update(x, Value { number, next: nodes[x].next })
}

/// A total is a cycle fault exactly where the chain does not end within the
/// fuel.
pub proof fn lemma_cycle_fault(nodes: Seq<Value>, value: Value, fuel: nat)
    ensures
        ends_within(nodes, value, fuel) <==> sum_within(nodes, value, fuel) != Err::<int, Fault>(
            Fault::CycleDetected,
        ),
    decreases fuel,
{
    if let Some(n) = value.next {
        if fuel > 0 {
            lemma_cycle_fault(nodes, nodes[n as int], (fuel - 1) as nat);
        }
    }
}

/// A chain that ends within some fuel ends within any larger fuel, and has
/// the same total there.
pub proof fn lemma_more_fuel(nodes: Seq<Value>, value: Value, fuel: nat, more: nat)
    requires
        ends_within(nodes, value, fuel),
        fuel <= more,
    ensures
        ends_within(nodes, value, more),
        sum_within(nodes, value, more) == sum_within(nodes, value, fuel),
    decreases fuel,
{
    if let Some(n) = value.next {
        lemma_more_fuel(nodes, nodes[n as int], (fuel - 1) as nat, (more - 1) as nat);
    }
}

/// The number of links from `value` to the end of its chain, where the
/// chain ends within `fuel` links.
pub open spec fn links_to_end(nodes: Seq<Value>, value: Value, fuel: nat) -> nat
    decreases fuel,
{
    match value.next {
        None => 0,
        Some(n) => if fuel == 0 {
            0
        } else {
            links_to_end(nodes, nodes[n as int], (fuel - 1) as nat) + 1
        },
    }
}

/// The handles that the chain of `value` passes within `fuel` links.
pub open spec fn passed(nodes: Seq<Value>, value: Value, fuel: nat) -> Set<int>
    decreases fuel,
{
    match value.next {
        None => Set::empty(),
        Some(n) => if fuel == 0 {
            Set::empty()
        } else {
            passed(nodes, nodes[n as int], (fuel - 1) as nat).insert(n as int)
        },
    }
}

/// A chain that ends passes each handle once: it passes as many handles as
/// it has links, and the chain of each of them is shorter than the whole.
proof fn lemma_passed_once(nodes: Seq<Value>, value: Value, fuel: nat)
    requires
        links_in_range(nodes),
        value.linked_within(nodes.len()),
        ends_within(nodes, value, fuel),
    ensures
        passed(nodes, value, fuel).finite(),
        passed(nodes, value, fuel).len() == links_to_end(nodes, value, fuel),
        passed(nodes, value, fuel).subset_of(set_int_range(0, nodes.len() as int)),
        forall|h: int| #[trigger]
            passed(nodes, value, fuel).contains(h) ==> ends_within(
                nodes,
                nodes[h],
                (links_to_end(nodes, value, fuel) - 1) as nat,
            ),
        ends_within(nodes, value, links_to_end(nodes, value, fuel)),
        links_to_end(nodes, value, fuel) > 0 ==> !ends_within(
            nodes,
            value,
            (links_to_end(nodes, value, fuel) - 1) as nat,
        ),
    decreases fuel,
{
    if let Some(n) = value.next {
        let rest = nodes[n as int];
        let less = (fuel - 1) as nat;
        let shorter = links_to_end(nodes, rest, less);
        lemma_passed_once(nodes, rest, less);
        if passed(nodes, rest, less).contains(n as int) {
            assert(shorter > 0);
            assert(false);
        }
        assert forall|h: int| #[trigger] passed(nodes, value, fuel).contains(h) implies ends_within(
            nodes,
            nodes[h],
            shorter,
        ) by {
            if h != n {
                assert(passed(nodes, rest, less).contains(h));
                lemma_more_fuel(nodes, nodes[h], (shorter - 1) as nat, shorter);
            }
        }
    }
}

/// The bound loses nothing: a chain that ends at all has at most
/// `nodes.len()` links. So a total is a cycle fault only where the chain
/// never ends, and else it is the checked sum of the whole chain.
pub proof fn law_chain_that_ends_is_short(nodes: Seq<Value>, value: Value, fuel: nat)
    requires
        links_in_range(nodes),
        value.linked_within(nodes.len()),
        ends_within(nodes, value, fuel),
    ensures
        ends_within(nodes, value, nodes.len()),
        value_total(nodes, value) == sum_within(nodes, value, fuel),
        value_total(nodes, value) != Err::<int, Fault>(Fault::CycleDetected),
{
    let links = links_to_end(nodes, value, fuel);
    lemma_passed_once(nodes, value, fuel);
    lemma_int_range(0, nodes.len() as int);
    lemma_len_subset(passed(nodes, value, fuel), set_int_range(0, nodes.len() as int));
    assert(links <= nodes.len());
    assert(links <= fuel) by {
        if links > fuel {
            lemma_more_fuel(nodes, value, fuel, (links - 1) as nat);
        }
    }
    lemma_more_fuel(nodes, value, links, nodes.len());
    lemma_more_fuel(nodes, value, links, fuel);
    lemma_cycle_fault(nodes, value, nodes.len());
}

/// The chain of a value of `nodes` that ends does not come back to that
/// value, so it has fewer than `nodes.len()` links.
proof fn lemma_stored_chain_is_shorter(nodes: Seq<Value>, h: int, fuel: nat)
    requires
        links_in_range(nodes),
        0 <= h < nodes.len(),
        ends_within(nodes, nodes[h], fuel),
    ensures
        ends_within(nodes, nodes[h], (nodes.len() - 1) as nat),
{
    let value = nodes[h];
    let links = links_to_end(nodes, value, fuel);
    let all = passed(nodes, value, fuel).insert(h);
    lemma_passed_once(nodes, value, fuel);
    assert(!passed(nodes, value, fuel).contains(h));
    lemma_int_range(0, nodes.len() as int);
    lemma_len_subset(all, set_int_range(0, nodes.len() as int));
    lemma_more_fuel(nodes, value, links, (nodes.len() - 1) as nat);
}

/// The total of a value is its number where nothing follows it, and else
/// the checked sum of its number and the total of the value that follows.
pub proof fn law_total_unfolds(nodes: Seq<Value>, value: Value)
    requires
        links_in_range(nodes),
        value.linked_within(nodes.len()),
    ensures
        value_total(nodes, value) == (match value.next {
            None => Ok::<int, Fault>(value.number as int),
            Some(n) => add_checked(chain_total(nodes, n as int), value.number as int),
        }),
{
    if let Some(n) = value.next {
        let rest = nodes[n as int];
        let less = (nodes.len() - 1) as nat;
        lemma_cycle_fault(nodes, rest, less);
        lemma_cycle_fault(nodes, rest, nodes.len());
        if ends_within(nodes, rest, nodes.len()) {
            lemma_stored_chain_is_shorter(nodes, n as int, nodes.len());
        }
        if ends_within(nodes, rest, less) {
            lemma_more_fuel(nodes, rest, less, nodes.len());
        }
    }
}

/// A chain that is shorter than the chain of the value with handle `x` does
/// not pass that value, so its total does not depend on that value's number.
proof fn lemma_shorter_chain_untouched(
    nodes: Seq<Value>,
    x: int,
    number: isize,
    value: Value,
    bound: nat,
    fuel: nat,
)
    requires
        links_in_range(nodes),
        0 <= x < nodes.len(),
        value.linked_within(nodes.len()),
        ends_within(nodes, value, bound),
        !ends_within(nodes, nodes[x], bound),
    ensures
        sum_within(renumbered(nodes, x, number), value, fuel) == sum_within(nodes, value, fuel),
    decreases fuel,
{
    if let Some(n) = value.next {
        if fuel > 0 {
            let rest = nodes[n as int];
            if n == x {
                lemma_more_fuel(nodes, rest, (bound - 1) as nat, bound);
            }
            if ends_within(nodes, nodes[x], (bound - 1) as nat) {
                lemma_more_fuel(nodes, nodes[x], (bound - 1) as nat, bound);
            }
            lemma_shorter_chain_untouched(
                nodes,
                x,
                number,
                rest,
                (bound - 1) as nat,
                (fuel - 1) as nat,
            );
        }
    }
}

/// Where the chain of the value with handle `x` ends, the total of what
/// follows that value does not depend on its number.
proof fn lemma_rest_untouched(nodes: Seq<Value>, x: int, number: isize, bound: nat, fuel: nat)
    requires
        links_in_range(nodes),
        0 <= x < nodes.len(),
        nodes[x].next is Some,
        ends_within(nodes, nodes[x], bound),
    ensures
        nodes[x].next->0 != x,
        sum_within(renumbered(nodes, x, number), nodes[nodes[x].next->0 as int], fuel)
            == sum_within(nodes, nodes[nodes[x].next->0 as int], fuel),
    decreases bound,
{
    let n = nodes[x].next->0;
    if ends_within(nodes, nodes[x], (bound - 1) as nat) {
        lemma_rest_untouched(nodes, x, number, (bound - 1) as nat, fuel);
    } else {
        lemma_shorter_chain_untouched(nodes, x, number, nodes[n as int], (bound - 1) as nat, fuel);
    }
}

/// Sharing: where the value with handle `x` follows the value with handle
/// `y`, a change of the number of the first changes the total of the second
/// by as much. Both totals are taken to exist.
pub proof fn law_change_shows_through_link(nodes: Seq<Value>, y: usize, x: usize, number: isize)
    requires
        links_in_range(nodes),
        y < nodes.len(),
        x < nodes.len(),
        nodes[y as int].next == Some(x),
        chain_total(nodes, y as int) is Ok,
        chain_total(renumbered(nodes, x as int, number), y as int) is Ok,
    ensures
        chain_total(renumbered(nodes, x as int, number), y as int)->Ok_0 - chain_total(
            nodes,
            y as int,
        )->Ok_0 == number - nodes[x as int].number,
{
    let changed = renumbered(nodes, x as int, number);
    let fuel = nodes.len();
    let head = nodes[y as int];
    let linked = nodes[x as int];
    lemma_cycle_fault(nodes, head, fuel);
    assert(ends_within(nodes, linked, (fuel - 1) as nat));
    if y == x {
        lemma_more_fuel(nodes, linked, (fuel - 1) as nat, fuel);
        lemma_rest_untouched(nodes, x as int, number, fuel, 0);
    }
    assert(changed[y as int] == head);
    assert(sum_within(changed, head, fuel) == add_checked(
        sum_within(changed, changed[x as int], (fuel - 1) as nat),
        head.number as int,
    ));
    assert(sum_within(nodes, head, fuel) == add_checked(
        sum_within(nodes, linked, (fuel - 1) as nat),
        head.number as int,
    ));
    if let Some(n) = linked.next {
        lemma_rest_untouched(nodes, x as int, number, (fuel - 1) as nat, (fuel - 2) as nat);
        assert(changed[n as int] == nodes[n as int]);
        assert(sum_within(changed, changed[x as int], (fuel - 1) as nat) == add_checked(
            sum_within(changed, nodes[n as int], (fuel - 2) as nat),
            number as int,
        ));
        assert(sum_within(nodes, linked, (fuel - 1) as nat) == add_checked(
            sum_within(nodes, nodes[n as int], (fuel - 2) as nat),
            linked.number as int,
        ));
    }
}

} // verus!
