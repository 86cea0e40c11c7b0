//! Values that several registers may share.
//!
//! The values live in a [`Store`] and refer to one another by handle, the
//! position of a value in the store. A value may name the handle of a next
//! value, so the values form chains, and nothing keeps a chain from running
//! into itself. The total of a value is the sum of the numbers along its
//! chain; it is computed when asked for, never cached, so a change of any
//! value of the chain shows in the totals of all that lead to it.

use vstd::prelude::*;

verus! {

/// Why a total could not be computed.
#[derive(Clone, Copy, Debug, PartialEq, Eq)]
pub enum Fault {
    /// The chain leads back into itself.
    CycleDetected,
    /// A partial sum, or the result of a command, is no `isize`.
    Overflow,
}

/// A number and, optionally, the handle of the value that follows it.
#[derive(Clone, Copy, Debug, PartialEq, Eq)]
pub struct Value {
    pub number: isize,
    pub next: Option<usize>,
}

/// The values, each known by its position.
pub struct Store {
    nodes: Vec<Value>,
}

/// Every handle held by a value of `nodes` names a value of `nodes`.
pub open spec fn links_in_range(nodes: Seq<Value>) -> bool {
    forall|i: int| 0 <= i < nodes.len() ==> (#[trigger] nodes[i]).linked_within(nodes.len())
}

/// The sum `rest + number`, where the rest of the chain could be summed and
/// the sum is an `isize`.
pub open spec fn add_checked(rest: Result<int, Fault>, number: int) -> Result<int, Fault> {
    match rest {
        Ok(t) => if isize::MIN <= t + number <= isize::MAX {
            Ok(t + number)
        } else {
            Err(Fault::Overflow)
        },
        Err(fault) => Err(fault),
    }
}

/// The total of `value`, following at most `fuel` links: the number of
/// `value`, plus the total of the value that follows, if any. The sum is
/// built from the end of the chain, and each partial sum must be an `isize`.
/// A chain with more than `fuel` links counts as a cycle.
pub open spec fn sum_within(nodes: Seq<Value>, value: Value, fuel: nat) -> Result<int, Fault>
    decreases fuel,
{
    match value.next {
        None => Ok(value.number as int),
        Some(n) => if fuel == 0 {
            Err(Fault::CycleDetected)
        } else {
            add_checked(sum_within(nodes, nodes[n as int], (fuel - 1) as nat), value.number as int)
        },
    }
}

/// The total of a value whose chain runs through `nodes`. A chain that ends
/// passes no value twice, so it has at most `nodes.len()` links: the bound
/// makes a cycle fault of those chains only that never end (see
/// [`crate::totals::law_chain_that_ends_is_short`]).
pub open spec fn value_total(nodes: Seq<Value>, value: Value) -> Result<int, Fault> {
    sum_within(nodes, value, nodes.len())
}

/// The total of the value with handle `h`.
pub open spec fn chain_total(nodes: Seq<Value>, h: int) -> Result<int, Fault> {
    value_total(nodes, nodes[h])
}

/// `walk` is the start of a chain: each value but the last names the handle of
/// the one after it.
spec fn is_walk(nodes: Seq<Value>, walk: Seq<Value>) -> bool {
    forall|i: int|
        0 <= i < walk.len() - 1 ==> match (#[trigger] walk[i]).next {
            Some(n) => n < nodes.len() && nodes[n as int] == walk[i + 1],
            None => false,
        }
}

/// The checked sum of the numbers of `walk` from position `from` on, built
/// from the end.
spec fn walk_sum(walk: Seq<Value>, from: int) -> Result<int, Fault>
    decreases walk.len() - from,
{
    if from >= walk.len() - 1 {
        Ok(walk[from].number as int)
    } else {
        add_checked(walk_sum(walk, from + 1), walk[from].number as int)
    }
}

/// A walk that has not ended after `walk.len() - 1` links exhausts that fuel.
proof fn lemma_unfinished_walk(nodes: Seq<Value>, walk: Seq<Value>, from: int)
    requires
        is_walk(nodes, walk),
        0 <= from < walk.len(),
        walk.last().next is Some,
    ensures
        sum_within(nodes, walk[from], (walk.len() - 1 - from) as nat) == Err::<int, Fault>(
            Fault::CycleDetected,
        ),
    decreases walk.len() - from,
{
    if from < walk.len() - 1 {
        lemma_unfinished_walk(nodes, walk, from + 1);
    }
}

/// On a walk that ends, the total is the checked sum of the walk, whatever
/// fuel is left over.
proof fn lemma_finished_walk(nodes: Seq<Value>, walk: Seq<Value>, from: int, fuel: nat)
    requires
        is_walk(nodes, walk),
        0 <= from < walk.len(),
        walk.last().next is None,
        fuel >= walk.len() - 1 - from,
    ensures
        sum_within(nodes, walk[from], fuel) == walk_sum(walk, from),
    decreases walk.len() - from,
{
    if from < walk.len() - 1 {
        lemma_finished_walk(nodes, walk, from + 1, (fuel - 1) as nat);
    }
}

/// A fault in the sum of a later part of a walk is the fault of the whole.
proof fn lemma_fault_spreads(walk: Seq<Value>, from: int)
    requires
        0 <= from < walk.len(),
        walk_sum(walk, from) is Err,
    ensures
        walk_sum(walk, 0) == walk_sum(walk, from),
    decreases from,
{
    if from > 0 {
        assert(walk_sum(walk, from - 1) == walk_sum(walk, from));
        lemma_fault_spreads(walk, from - 1);
    }
}

impl Value {
    /// The handle of the next value, if there is one, is below `len`.
    pub open spec fn linked_within(&self, len: nat) -> bool {
        match self.next {
            Some(n) => n < len,
            None => true,
        }
    }

    /// Puts a fresh value, with number zero and no next value, into the
    /// store and returns its handle.
    pub fn new_wrapped(store: &mut Store) -> (handle: usize)
        requires
            old(store).wf(),
        ensures
            final(store).wf(),
            handle == old(store)@.len(),
            final(store)@ == old(store)@.push(Value { number: 0, next: None }),
    {
        let handle = store.nodes.len();
        store.nodes.push(Value { number: 0, next: None });
        handle
    }

    /// Replaces the number and keeps the link.
    pub fn set_number(&mut self, number: isize)
        ensures
            *final(self) == (Value { number, next: old(self).next }),
    {
        self.number = number;
    }

    /// Makes `next` the handle of the value that follows and keeps the
    /// number.
    pub fn set_next(&mut self, next: usize)
        ensures
            *final(self) == (Value { number: old(self).number, next: Some(next) }),
    {
        self.next = Some(next);
    }

    /// The total of this value over `store`, where it has one.
    pub fn get_total(&self, store: &Store) -> (total: isize)
        requires
            store.wf(),
            self.linked_within(store@.len()),
            value_total(store@, *self) is Ok,
        ensures
            value_total(store@, *self) == Ok::<int, Fault>(total as int),
    {
        match self.try_total(store) {
            Ok(total) => total,
            Err(_) => unreached(),
        }
    }

    /// The total of this value over `store`, or the reason why it has none:
    /// its chain leads back into itself, or a partial sum overflows.
    ///
    /// The chain is walked link by link, without recursion. A walk that has
    /// not ended after as many links as the store has values has passed a
    /// value twice, and is given up as a cycle.
    pub fn try_total(&self, store: &Store) -> (total: Result<isize, Fault>)
        requires
            store.wf(),
            self.linked_within(store@.len()),
        ensures
            match total {
                Ok(t) => value_total(store@, *self) == Ok::<int, Fault>(t as int),
                Err(fault) => value_total(store@, *self) == Err::<int, Fault>(fault),
            },
    {
        let ghost nodes = store@;
        let mut numbers: Vec<isize> = Vec::new();
        numbers.push(self.number);
        let ghost mut walk: Seq<Value> = seq![*self];
        let mut current: Value = *self;
        loop
            invariant
                store.wf(),
                nodes == store@,
                walk.len() == numbers.len(),
                1 <= walk.len() <= nodes.len() + 1,
                walk[0] == *self,
                walk.last() == current,
                current.linked_within(nodes.len()),
                is_walk(nodes, walk),
                forall|i: int| 0 <= i < walk.len() ==> numbers[i] == (#[trigger] walk[i]).number,
            ensures
                store.wf(),
                nodes == store@,
                walk.len() == numbers.len(),
                1 <= walk.len(),
                walk[0] == *self,
                walk.last().next is None,
                is_walk(nodes, walk),
                forall|i: int| 0 <= i < walk.len() ==> numbers[i] == (#[trigger] walk[i]).number,
            decreases nodes.len() + 1 - walk.len(),
        {
            match current.next {
                None => {
                    break ;
                },
                Some(n) => {
                    if numbers.len() > store.nodes.len() {
                        proof {
                            lemma_unfinished_walk(nodes, walk, 0);
                        }
                        return Err(Fault::CycleDetected);
                    }
                    current = store.nodes[n];
                    numbers.push(current.number);
                    proof {
                        walk = walk.push(current);
                    }
                },
            }
        }
        proof {
            lemma_finished_walk(nodes, walk, 0, nodes.len());
        }
        let mut at: usize = numbers.len() - 1;
        let mut sum: isize = numbers[at];
        while at > 0
            invariant
                at < walk.len(),
                walk.len() == numbers.len(),
                value_total(store@, *self) == walk_sum(walk, 0),
                forall|i: int| 0 <= i < walk.len() ==> numbers[i] == (#[trigger] walk[i]).number,
                walk_sum(walk, at as int) == Ok::<int, Fault>(sum as int),
            decreases at,
        {
            at = at - 1;
            match sum.checked_add(numbers[at]) {
                Some(s) => {
                    sum = s;
                },
                None => {
                    proof {
                        assert(walk_sum(walk, at as int) == Err::<int, Fault>(Fault::Overflow));
                        lemma_fault_spreads(walk, at as int);
                    }
                    return Err(Fault::Overflow);
                },
            }
        }
        Ok(sum)
    }
}

impl View for Store {
    type V = Seq<Value>;

    closed spec fn view(&self) -> Seq<Value> {
        self.nodes@
    }
}

impl Store {
    /// Every link of the store leads to a value of the store.
    pub open spec fn wf(&self) -> bool {
        links_in_range(self@)
    }

    /// A store without values.
    pub fn new() -> (store: Store)
        ensures
            store.wf(),
            store@ == Seq::<Value>::empty(),
    {
        Store { nodes: Vec::new() }
    }

    /// The number of values.
    pub fn len(&self) -> (len: usize)
        ensures
            len == self@.len(),
    {
        self.nodes.len()
    }

    /// The value with handle `h`.
    pub fn get(&self, h: usize) -> (value: Value)
        requires
            h < self@.len(),
        ensures
            value == self@[h as int],
    {
        self.nodes[h]
    }

    /// Gives the value with handle `h` the number `number`.
    pub fn assign(&mut self, h: usize, number: isize)
        requires
            old(self).wf(),
            h < old(self)@.len(),
        ensures
            final(self).wf(),
            final(self)@ == old(self)@.update(
                h as int,
                Value { number, next: old(self)@[h as int].next },
            ),
    {
        let mut value = self.nodes[h];
        value.set_number(number);
        self.nodes.set(h, value);
    }

    /// Makes the value with handle `next` follow the value with handle `h`.
    /// The two then share whatever the second leads to: nothing is copied.
    pub fn link(&mut self, h: usize, next: usize)
        requires
            old(self).wf(),
            h < old(self)@.len(),
            next < old(self)@.len(),
        ensures
            final(self).wf(),
            final(self)@ == old(self)@.update(
                h as int,
                Value { number: old(self)@[h as int].number, next: Some(next) },
            ),
    {
        let mut value = self.nodes[h];
        value.set_next(next);
        self.nodes.set(h, value);
    }

    /// The total of the value with handle `h`, or the reason why it has
    /// none.
    pub fn total(&self, h: usize) -> (total: Result<isize, Fault>)
        requires
            self.wf(),
            h < self@.len(),
        ensures
            match total {
                Ok(t) => chain_total(self@, h as int) == Ok::<int, Fault>(t as int),
                Err(fault) => chain_total(self@, h as int) == Err::<int, Fault>(fault),
            },
    {
        let value = self.nodes[h];
        value.try_total(self)
    }
}

} // verus!
