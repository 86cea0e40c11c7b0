//! What holds of runs: that nothing after a `Quit` counts, that adding zero
//! changes nothing, and that a linked register shares the value of its
//! source instead of copying it.

use crate::dispatch::{
    lemma_settled, outcome, run, step, write_step, Command, Machine, Trace,
};
use crate::totals::{law_change_shows_through_link, renumbered};
use vstd::prelude::*;

verus! {

/// Every step keeps the machine well formed.
pub proof fn lemma_step_wf(t: Trace, index: nat, c: Command)
    requires
        t.machine.wf(),
    ensures
        step(t, index, c).machine.wf(),
{
}

/// Resolving a name keeps the names apart while the handles are `usize`.
proof fn lemma_resolve_apart(m: Machine, name: Seq<char>)
    requires
        m.wf(),
        m.apart(),
        m.nodes.len() < usize::MAX,
    ensures
        m.resolve(name).wf(),
        m.resolve(name).apart(),
        m.resolve(name).names.contains_key(name),
        m.nodes.len() <= m.resolve(name).nodes.len() <= m.nodes.len() + 1,
        forall|other: Seq<char>| #[trigger]
            m.names.contains_key(other) ==> m.resolve(name).names.contains_key(other)
                && m.resolve(name).names[other] == m.names[other],
        forall|h: int| 0 <= h < m.nodes.len() ==> #[trigger] m.resolve(name).nodes[h] == m.nodes[h],
{
    let after = m.resolve(name);
    assert forall|a: Seq<char>, b: Seq<char>|
        after.names.contains_key(a) && after.names.contains_key(b) && a != b implies (
    #[trigger] after.names[a]) != (#[trigger] after.names[b]) by {
        if m.names.contains_key(a) && m.names.contains_key(b) {
            assert(m.names[a] != m.names[b]);
        }
    }
}

/// A step adds at most two values, and keeps the names apart while the
/// handles are `usize`.
pub proof fn lemma_step_apart(t: Trace, index: nat, c: Command)
    requires
        t.machine.wf(),
        t.machine.apart(),
        t.machine.nodes.len() + 2 <= usize::MAX,
    ensures
        step(t, index, c).machine.apart(),
        step(t, index, c).machine.nodes.len() <= t.machine.nodes.len() + 2,
{
    if t.status is Running {
        match c {
            Command::LazyAdd(target, source) => {
                lemma_resolve_apart(t.machine, target@);
                lemma_resolve_apart(t.machine.resolve(target@), source@);
            },
            Command::Add(name, _) => {
                lemma_resolve_apart(t.machine, name@);
            },
            Command::Subtract(name, _) => {
                lemma_resolve_apart(t.machine, name@);
            },
            Command::Multiply(name, _) => {
                lemma_resolve_apart(t.machine, name@);
            },
            _ => {},
        }
    }
}

/// The machine is well formed throughout every run.
pub proof fn lemma_run_wf(commands: Seq<Command>, n: nat)
    ensures
        run(commands, n).machine.wf(),
    decreases n,
{
    if n > 0 {
        lemma_run_wf(commands, (n - 1) as nat);
        lemma_step_wf(run(commands, (n - 1) as nat), (n - 1) as nat, commands[n - 1]);
    }
}

/// Throughout a run of so few commands that every handle is a `usize`, no
/// two names stand for the same value.
pub proof fn lemma_run_apart(commands: Seq<Command>, n: nat)
    requires
        2 * n <= usize::MAX,
    ensures
        run(commands, n).machine.apart(),
        run(commands, n).machine.nodes.len() <= 2 * n,
    decreases n,
{
    if n > 0 {
        let before = run(commands, (n - 1) as nat);
        lemma_run_wf(commands, (n - 1) as nat);
        lemma_run_apart(commands, (n - 1) as nat);
        lemma_step_apart(before, (n - 1) as nat, commands[n - 1]);
    }
}

/// The run after `n` commands depends on the first `n` commands only.
pub proof fn lemma_run_prefix(commands: Seq<Command>, k: nat, n: nat)
    requires
        n <= k <= commands.len(),
    ensures
        run(commands.take(k as int), n) == run(commands, n),
    decreases n,
{
    if n > 0 {
        lemma_run_prefix(commands, k, (n - 1) as nat);
    }
}

/// Nothing at or after a `Quit` has any effect: a command sequence with a
/// `Quit` at position `q` yields what the commands before that position
/// yield by themselves.
pub proof fn law_nothing_after_quit(commands: Seq<Command>, q: nat)
    requires
        q < commands.len(),
        commands[q as int] is Quit,
    ensures
        outcome(commands) == outcome(commands.take(q as int)),
{
    let before = commands.take(q as int);
    lemma_run_prefix(commands, q, q);
    assert(run(commands, q + 1) == step(run(commands, q), q, commands[q as int]));
    if run(commands, q).status is Running {
        lemma_settled(commands, q + 1, commands.len());
    } else {
        lemma_settled(commands, q, commands.len());
    }
}

/// The run after `c` was taken `times` times in a row, the first time at
/// position `from`.
pub open spec fn repeated(t: Trace, from: nat, c: Command, times: nat) -> Trace
    decreases times,
{
    if times == 0 {
        t
    } else {
        step(repeated(t, from, c, (times - 1) as nat), (from + times - 1) as nat, c)
    }
}

/// Adding zero to a register twice is the same as adding it once, wherever
/// the two commands stand.
pub proof fn law_add_zero_idempotent(t: Trace, name: String, first: nat, second: nat)
    requires
        t.machine.wf(),
    ensures
        step(step(t, first, Command::Add(name, 0)), second, Command::Add(name, 0)) == step(
            t,
            first,
            Command::Add(name, 0),
        ),
{
    let c = Command::Add(name, 0);
    let once = step(t, first, c);
    let twice = step(once, second, c);
    if t.status is Running {
        assert(once == write_step(t, c, name@));
        assert(twice == write_step(once, c, name@));
        assert(once.machine.names.contains_key(name@));
        assert(twice.machine.nodes =~= once.machine.nodes);
        assert(twice.machine.names =~= once.machine.names);
    }
}

/// Adding zero to a register any number of times, once at least, is the
/// same as adding it once: whatever comes later, a print of the register in
/// particular, finds the same registers and the same outputs.
pub proof fn law_add_zero_repeated(t: Trace, name: String, from: nat, times: nat)
    requires
        t.machine.wf(),
        times >= 1,
    ensures
        repeated(t, from, Command::Add(name, 0), times) == step(t, from, Command::Add(name, 0)),
    decreases times,
{
    let c = Command::Add(name, 0);
    if times > 1 {
        law_add_zero_repeated(t, name, from, (times - 1) as nat);
        law_add_zero_idempotent(t, name, from, (from + times - 1) as nat);
    } else {
        assert(repeated(t, from, c, 0) == t);
    }
}

/// The commands `before`, then `Add(name, 0)` `times` times, then
/// `Print(name)`.
pub open spec fn zero_adds_then_print(before: Seq<Command>, name: String, times: nat) -> Seq<
    Command,
> {
    before + Seq::new(times, |i: int| Command::Add(name, 0)) + seq![Command::Print(name)]
}

/// The first `k` of the repeated `Add`s, taken after `before`, are `k`
/// repetitions of the step.
proof fn lemma_zero_adds_run(before: Seq<Command>, name: String, times: nat, k: nat)
    requires
        k <= times,
    ensures
        run(zero_adds_then_print(before, name, times), before.len() + k) == repeated(
            run(before, before.len()),
            before.len(),
            Command::Add(name, 0),
            k,
        ),
    decreases k,
{
    let all = zero_adds_then_print(before, name, times);
    if k == 0 {
        lemma_run_prefix(all, before.len(), before.len());
        assert(all.take(before.len() as int) =~= before);
    } else {
        lemma_zero_adds_run(before, name, times, (k - 1) as nat);
        assert(all[before.len() + k - 1] == Command::Add(name, 0));
    }
}

/// However often zero is added to a register, once at least, a print of
/// the register that follows puts out the same: the whole run yields what
/// it yields with a single such `Add`.
pub proof fn law_add_zero_print(before: Seq<Command>, name: String, times: nat)
    requires
        times >= 1,
    ensures
        outcome(zero_adds_then_print(before, name, times)) == outcome(
            zero_adds_then_print(before, name, 1),
        ),
{
    let c = Command::Add(name, 0);
    let often = zero_adds_then_print(before, name, times);
    let once = zero_adds_then_print(before, name, 1);
    let from = before.len();
    let t = run(before, from);
    lemma_run_wf(before, from);
    lemma_zero_adds_run(before, name, times, times);
    lemma_zero_adds_run(before, name, 1, 1);
    law_add_zero_repeated(t, name, from, times);
    law_add_zero_repeated(t, name, from, 1);
    let written = step(t, from, c);
    assert(run(often, from + times) == written);
    assert(run(once, from + 1) == written);
    assert(often[(from + times) as int] == Command::Print(name));
    assert(once[(from + 1) as int] == Command::Print(name));
    assert(often.len() == from + times + 1);
    assert(once.len() == from + 2);
    assert(run(often, from + times + 1) == step(written, from + times, Command::Print(name)));
    assert(run(once, from + 2) == step(written, (from + 1) as nat, Command::Print(name)));
    if written.status is Running {
        assert(written == write_step(t, c, name@));
        assert(written.machine.names.contains_key(name@));
    }
}

/// Adding zero to a register that is known changes nothing at all.
pub proof fn law_add_zero_to_known(t: Trace, name: String, index: nat)
    requires
        t.machine.wf(),
        t.machine.names.contains_key(name@),
    ensures
        step(t, index, Command::Add(name, 0)) == t,
{
    let c = Command::Add(name, 0);
    let after = step(t, index, c);
    if t.status is Running {
        assert(after == write_step(t, c, name@));
        assert(after.machine.nodes =~= t.machine.nodes);
        assert(after.machine.names =~= t.machine.names);
    }
}

/// After `LazyAdd(target, source)` both registers are known, and the
/// source's value follows the target's.
pub proof fn law_lazy_add_links(t: Trace, index: nat, target: String, source: String)
    requires
        t.machine.wf(),
        t.status is Running,
    ensures
        ({
            let after = step(t, index, Command::LazyAdd(target, source));
            &&& after.status is Running
            &&& after.outputs == t.outputs
            &&& after.machine.wf()
            &&& after.machine.linked(target@, source@)
        }),
{
}

/// A link stays until another `LazyAdd` names its target: after any other
/// command the source's value still follows the target's, and the two
/// registers stand for the values that they stood for.
pub proof fn law_link_stays(
    t: Trace,
    index: nat,
    c: Command,
    target: Seq<char>,
    source: Seq<char>,
)
    requires
        t.machine.wf(),
        t.machine.apart(),
        t.machine.nodes.len() + 2 <= usize::MAX,
        t.machine.linked(target, source),
        c matches Command::LazyAdd(other, _) ==> other@ != target,
    ensures
        step(t, index, c).machine.linked(target, source),
        step(t, index, c).machine.names[target] == t.machine.names[target],
        step(t, index, c).machine.names[source] == t.machine.names[source],
{
    if t.status is Running {
        match c {
            Command::LazyAdd(other, origin) => {
                let first = t.machine.resolve(other@);
                let second = first.resolve(origin@);
                lemma_resolve_apart(t.machine, other@);
                lemma_resolve_apart(first, origin@);
                assert(first.names.contains_key(target));
                assert(first.names.contains_key(source));
                assert(second.names.contains_key(other@));
                assert(second.names.contains_key(target));
                assert(second.names.contains_key(source));
                assert(second.names[other@] != second.names[target]);
            },
            Command::Add(name, _) => {
                lemma_resolve_apart(t.machine, name@);
            },
            Command::Subtract(name, _) => {
                lemma_resolve_apart(t.machine, name@);
            },
            Command::Multiply(name, _) => {
                lemma_resolve_apart(t.machine, name@);
            },
            _ => {},
        }
    }
}

/// Sharing, not copying: while the value of the register `source` follows
/// the value of the register `target`, an `Add`, `Subtract` or `Multiply` on
/// `source` changes the total of `target` by as much as it changes the
/// number of `source`. The total of `target` is taken to exist before and
/// after the command.
pub proof fn law_linked_total_follows(
    t: Trace,
    index: nat,
    c: Command,
    target: Seq<char>,
    source: Seq<char>,
)
    requires
        t.machine.wf(),
        t.status is Running,
        t.machine.linked(target, source),
        c.written() == Some(source),
        step(t, index, c).status is Running,
        t.machine.total(target) is Ok,
        step(t, index, c).machine.total(target) is Ok,
    ensures
        step(t, index, c).machine.total(target)->Ok_0 - t.machine.total(target)->Ok_0 == c.applied(
            t.machine.value(source).number as int,
        ) - t.machine.value(source).number,
{
    let after = step(t, index, c);
    assert(after == write_step(t, c, source));
    let number = c.applied(t.machine.value(source).number as int) as isize;
    assert(after.machine.nodes =~= renumbered(
        t.machine.nodes,
        t.machine.names[source] as int,
        number,
    ));
    law_change_shows_through_link(
        t.machine.nodes,
        t.machine.names[target],
        t.machine.names[source],
        number,
    );
}

/// No command at the positions from `from` up to, not including, `to` is a
/// `LazyAdd` with the target `target`.
pub open spec fn not_relinked(commands: Seq<Command>, target: Seq<char>, from: nat, to: nat) -> bool {
    forall|k: int|
        from <= k < to ==> (#[trigger] commands[k] matches Command::LazyAdd(other, _)
            ==> other@ != target)
}

/// A link made at position `linked_at` is there after `n` commands, where
/// no command in between makes another for the same target.
proof fn lemma_link_through_run(
    commands: Seq<Command>,
    target: String,
    source: String,
    linked_at: nat,
    n: nat,
)
    requires
        2 * commands.len() <= usize::MAX,
        linked_at < n <= commands.len(),
        commands[linked_at as int] == Command::LazyAdd(target, source),
        not_relinked(commands, target@, linked_at + 1, n),
        run(commands, linked_at).status is Running,
    ensures
        run(commands, n).machine.linked(target@, source@),
    decreases n,
{
    let before = run(commands, (n - 1) as nat);
    lemma_run_wf(commands, (n - 1) as nat);
    lemma_run_apart(commands, (n - 1) as nat);
    if n == linked_at + 1 {
        law_lazy_add_links(before, linked_at, target, source);
    } else {
        lemma_link_through_run(commands, target, source, linked_at, (n - 1) as nat);
        law_link_stays(before, (n - 1) as nat, commands[n - 1], target@, source@);
    }
}

/// Sharing over a whole run: once `LazyAdd(target, source)` was taken, and
/// until another `LazyAdd` names that target, every `Add`, `Subtract` or
/// `Multiply` on `source` changes the total that a print of `target` would
/// put out by as much as it changes the number of `source`. The run is one
/// that a `Vec` of commands can start and that goes on after the command at
/// `written_at`, and the total of `target` is taken to exist before and after
/// that command.
pub proof fn law_linked_total_follows_in_run(
    commands: Seq<Command>,
    target: String,
    source: String,
    linked_at: nat,
    written_at: nat,
)
    requires
        2 * commands.len() <= usize::MAX,
        linked_at < written_at < commands.len(),
        commands[linked_at as int] == Command::LazyAdd(target, source),
        not_relinked(commands, target@, linked_at + 1, written_at),
        commands[written_at as int].written() == Some(source@),
        run(commands, written_at + 1).status is Running,
        run(commands, written_at).machine.total(target@) is Ok,
        run(commands, written_at + 1).machine.total(target@) is Ok,
    ensures
        run(commands, written_at + 1).machine.total(target@)->Ok_0 - run(
            commands,
            written_at,
        ).machine.total(target@)->Ok_0 == commands[written_at as int].applied(
            run(commands, written_at).machine.value(source@).number as int,
        ) - run(commands, written_at).machine.value(source@).number,
{
    let before = run(commands, written_at);
    if !(run(commands, linked_at).status is Running) {
        lemma_settled(commands, linked_at, written_at + 1);
    }
    if !(before.status is Running) {
        lemma_settled(commands, written_at, written_at + 1);
    }
    lemma_link_through_run(commands, target, source, linked_at, written_at);
    lemma_run_wf(commands, written_at);
    law_linked_total_follows(
        before,
        written_at,
        commands[written_at as int],
        target@,
        source@,
    );
}

} // verus!
