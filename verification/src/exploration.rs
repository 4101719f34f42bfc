//! The exploration as a state machine over mathematical values: the
//! worklist, the confirmed targets and the instruction map, and how one
//! decoded instruction, one linear run and one round change them.

use vstd::prelude::*;

use crate::address_map::FormView;
use crate::address_map::successor_of;
use crate::engine::decoded;
use crate::image::code_from;
use crate::image::ImageView;
use crate::instruction::branch_target;
use crate::instruction::InsnView;

verus! {

/// The state of an exploration.
pub struct Exploration {
    /// Addresses that await a decode run; the last one is visited next.
    pub worklist: Seq<u64>,
    /// Addresses at which a run starts, and which therefore end other runs.
    pub targets: Set<u64>,
    /// What was decoded, by address.
    pub instructions: Map<u64, Option<FormView>>,
}

/// The state before the first round: the entry point is the one target and
/// the one address to visit, and nothing is decoded.
pub open spec fn initial(entry_point: u64) -> Exploration {
    Exploration {
        worklist: seq![entry_point],
        targets: Set::<u64>::empty().insert(entry_point),
        instructions: Map::<u64, Option<FormView>>::empty(),
    }
}

/// True for the bounds of an image without code section, `(0, 0)`: they
/// bound no run.
pub open spec fn unbounded(low: u64, high: u64) -> bool {
    low == 0 && high == 0
}

/// Where a run that starts at `address` has to stop: at the least target
/// above `address`, and at `high`, the end of the code region, at the
/// latest. An image without code section has no such place.
pub open spec fn boundary(targets: Set<u64>, low: u64, high: u64, address: u64) -> Option<u64> {
    if unbounded(low, high) {
        None
    } else {
        match successor_of(targets, address) {
            Some(next) => if next < high {
                Some(next)
            } else {
                Some(high)
            },
            None => Some(high),
        }
    }
}

/// True when the round that starts in `s` has an address decoded: the
/// worklist is not empty, and nothing is decoded at its last address.
pub open spec fn asks(s: Exploration) -> bool {
    s.worklist.len() > 0 && !s.instructions.contains_key(s.worklist.last())
}

/// Whether a run with the given boundary stops before an instruction at `address`.
pub open spec fn stops(bound: Option<u64>, address: u64) -> bool {
    match bound {
        Some(b) => address >= b,
        None => false,
    }
}

/// The record that the instruction map keeps of an instruction.
pub open spec fn form_of(insn: InsnView) -> Option<FormView> {
    Some(FormView { text: insn.text, length: insn.length })
}

/// True when `index` is the first position of `address` in `worklist`.
pub open spec fn is_first_occurrence(worklist: Seq<u64>, address: u64, index: int) -> bool {
    &&& 0 <= index < worklist.len()
    &&& worklist[index] == address
    &&& forall|j: int| 0 <= j < index ==> worklist[j] != address
}

/// The worklist without the first occurrence of `address`: the last
/// element takes the place of the one that leaves.
pub open spec fn without(worklist: Seq<u64>, address: u64) -> Seq<u64> {
    if exists|i: int| is_first_occurrence(worklist, address, i) {
        let i = choose|i: int| is_first_occurrence(worklist, address, i);
        worklist.update(i, worklist.last()).drop_last()
    } else {
        worklist
    }
}

/// The state after one instruction of a run is recorded: the first record
/// of an address stays; the address leaves the worklist; the branch
/// target, if it is new, becomes a target where it is decoded already and
/// joins the worklist where it is not.
pub open spec fn after_insn(s: Exploration, insn: InsnView) -> Exploration {
    let recorded = if s.instructions.contains_key(insn.address) {
        s.instructions
    } else {
        s.instructions.insert(insn.address, form_of(insn))
    };
    let pending = without(s.worklist, insn.address);
    match branch_target(insn) {
        Some(t) => if s.targets.contains(t) || pending.contains(t) {
            Exploration { worklist: pending, targets: s.targets, instructions: recorded }
        } else if recorded.contains_key(t) {
            Exploration { worklist: pending, targets: s.targets.insert(t), instructions: recorded }
        } else {
            Exploration { worklist: pending.push(t), targets: s.targets, instructions: recorded }
        },
        None => Exploration { worklist: pending, targets: s.targets, instructions: recorded },
    }
}

/// The state after the first `n` instructions of `run` are recorded in order.
pub open spec fn after_prefix(s: Exploration, run: Seq<InsnView>, n: nat) -> Exploration
    decreases n,
{
    if n == 0 {
        s
    } else {
        after_insn(after_prefix(s, run, (n - 1) as nat), run[n - 1])
    }
}

/// True when a run with boundary `bound` records exactly the first `n`
/// instructions of `run`: none of them lies at or behind the boundary, and
/// the next one, if there is one, does.
pub open spec fn is_cut(run: Seq<InsnView>, bound: Option<u64>, n: int) -> bool {
    &&& 0 <= n <= run.len()
    &&& forall|j: int| 0 <= j < n ==> !stops(bound, (#[trigger] run[j]).address)
    &&& n < run.len() ==> stops(bound, run[n].address)
}

/// The number of instructions of `run` that a run with boundary `bound` records.
pub open spec fn cut(run: Seq<InsnView>, bound: Option<u64>) -> nat {
    choose|n: nat| is_cut(run, bound, n as int)
}

/// The instructions of `run` that a run with boundary `bound` records.
pub open spec fn taken(run: Seq<InsnView>, bound: Option<u64>) -> Seq<InsnView> {
    run.take(cut(run, bound) as int)
}

/// The state after a whole run with boundary `bound`.
pub open spec fn after_run(s: Exploration, run: Seq<InsnView>, bound: Option<u64>) -> Exploration {
    after_prefix(s, run, cut(run, bound))
}

/// The state after `target` is visited and decodes to `run`: the boundary
/// is taken from the targets as they stand, `target` becomes a target, and
/// the run is recorded up to the boundary.
pub open spec fn visited(s: Exploration, low: u64, high: u64, target: u64, run: Seq<InsnView>) -> Exploration {
    after_run(
        Exploration { worklist: s.worklist, targets: s.targets.insert(target), instructions: s.instructions },
        run,
        boundary(s.targets, low, high, target),
    )
}

/// One round, given the run that the last address of the worklist decodes
/// to: the address leaves the worklist; where it is decoded already
/// nothing else happens, else it is visited.
pub open spec fn round_with(s: Exploration, low: u64, high: u64, run: Seq<InsnView>) -> Exploration {
    if s.worklist.len() == 0 {
        s
    } else {
        let target = s.worklist.last();
        let popped = Exploration {
            worklist: s.worklist.drop_last(),
            targets: s.targets,
            instructions: s.instructions,
        };
        if s.instructions.contains_key(target) {
            popped
        } else {
            visited(popped, low, high, target, run)
        }
    }
}

/// The run that the engine decodes at `address` of `code`.
pub open spec fn run_at(code: Seq<u8>, address: u64) -> Seq<InsnView> {
    decoded(code_from(code, address), address)
}

/// One round over `image`, given whether the engine answers: where it
/// does, the address that is visited decodes to its run, and where it does
/// not, to nothing.
pub open spec fn round_answered(image: ImageView, s: Exploration, answered: bool) -> Exploration {
    round_with(
        s,
        image.min_insn_addr,
        image.max_insn_addr,
        if answered {
            run_at(image.code, s.worklist.last())
        } else {
            Seq::empty()
        },
    )
}

/// One round over `image` with an engine that answers.
pub open spec fn round(image: ImageView, s: Exploration) -> Exploration {
    round_answered(image, s, true)
}

/// The state after as many rounds over `image` as `answers` is long, the
/// engine answering in each as `answers` says.
pub open spec fn rounds_answered(image: ImageView, s: Exploration, answers: Seq<bool>) -> Exploration
    decreases answers.len(),
{
    if answers.len() == 0 {
        s
    } else {
        round_answered(image, rounds_answered(image, s, answers.drop_last()), answers.last())
    }
}

/// The state after `n` rounds over `image`.
pub open spec fn rounds(image: ImageView, s: Exploration, n: nat) -> Exploration
    decreases n,
{
    if n == 0 {
        s
    } else {
        round(image, rounds(image, s, (n - 1) as nat))
    }
}

/// True when the exploration of `image` from state `start` ends in `end`:
/// some number of rounds leads there, and the worklist is then empty.
pub open spec fn is_outcome(image: ImageView, start: Exploration, end: Exploration) -> bool {
    exists|n: nat| rounds(image, start, n) == end && end.worklist.len() == 0
}

/// Every address that the state knows of: targets, pending and decoded.
pub open spec fn seen(s: Exploration) -> Set<u64> {
    s.targets + s.worklist.to_set() + s.instructions.dom()
}

/// True when the targets and the decoded addresses are finitely many.
pub open spec fn finite(s: Exploration) -> bool {
    s.targets.finite() && s.instructions.dom().finite()
}

/// The size of the address space.
pub open spec fn address_space() -> nat {
    0x1_0000_0000_0000_0000
}

/// Rounds in which the engine always answers are the rounds over the image.
pub proof fn lemma_rounds_all_answered(image: ImageView, s: Exploration, answers: Seq<bool>)
    requires
        forall|i: int| 0 <= i < answers.len() ==> answers[i],
    ensures
        rounds_answered(image, s, answers) == rounds(image, s, answers.len()),
    decreases answers.len(),
{
    if answers.len() > 0 {
        lemma_rounds_all_answered(image, s, answers.drop_last());
    }
}

/// Every sequence has a first position of each of its elements.
pub proof fn lemma_first_occurrence_exists(worklist: Seq<u64>, address: u64, upto: int)
    requires
        0 <= upto < worklist.len(),
        worklist[upto] == address,
    ensures
        exists|i: int| is_first_occurrence(worklist, address, i),
    decreases upto,
{
    if exists|j: int| 0 <= j < upto && worklist[j] == address {
        let j = choose|j: int| 0 <= j < upto && worklist[j] == address;
        lemma_first_occurrence_exists(worklist, address, j);
    } else {
        assert(is_first_occurrence(worklist, address, upto));
    }
}

/// Two first positions of one address are the same position.
pub proof fn lemma_first_occurrence_unique(worklist: Seq<u64>, address: u64, i: int, j: int)
    requires
        is_first_occurrence(worklist, address, i),
        is_first_occurrence(worklist, address, j),
    ensures
        i == j,
{
}

/// What leaves a worklist with `without`: at most one element, and none but `address`.
pub proof fn lemma_without(worklist: Seq<u64>, address: u64)
    ensures
        without(worklist, address).len() <= worklist.len(),
        worklist.contains(address) ==> without(worklist, address).len() + 1 == worklist.len(),
        !worklist.contains(address) ==> without(worklist, address) == worklist,
        forall|x: u64| without(worklist, address).contains(x) ==> worklist.contains(x),
        forall|x: u64| worklist.contains(x) && x != address ==> without(worklist, address).contains(x),
        worklist.no_duplicates() ==> without(worklist, address).no_duplicates() && !without(
            worklist,
            address,
        ).contains(address),
{
    let r = without(worklist, address);
    if worklist.contains(address) {
        let at = choose|at: int| 0 <= at < worklist.len() && worklist[at] == address;
        lemma_first_occurrence_exists(worklist, address, at);
        let i = choose|i: int| is_first_occurrence(worklist, address, i);
        let last = worklist.len() - 1;
        assert(r == worklist.update(i, worklist.last()).drop_last());
        assert forall|x: u64| r.contains(x) implies worklist.contains(x) by {
            let j = choose|j: int| 0 <= j < r.len() && r[j] == x;
            if j == i {
                assert(worklist[last] == x);
            } else {
                assert(worklist[j] == x);
            }
        }
        assert forall|x: u64| worklist.contains(x) && x != address implies r.contains(x) by {
            let j = choose|j: int| 0 <= j < worklist.len() && worklist[j] == x;
            if j == last {
                assert(r[i] == x);
            } else {
                assert(r[j] == x);
            }
        }
        if worklist.no_duplicates() {
            assert forall|a: int, b: int| 0 <= a < r.len() && 0 <= b < r.len() && a != b implies r[a]
                != r[b] by {
                let pa = if a == i { last } else { a };
                let pb = if b == i { last } else { b };
                assert(r[a] == worklist[pa]);
                assert(r[b] == worklist[pb]);
            }
            if r.contains(address) {
                let j = choose|j: int| 0 <= j < r.len() && r[j] == address;
                let pj = if j == i { last } else { j };
                assert(worklist[pj] == address);
            }
        }
    } else {
        assert forall|i: int| !is_first_occurrence(worklist, address, i) by {
            if is_first_occurrence(worklist, address, i) {
                assert(worklist.contains(address));
            }
        }
    }
}

/// A run is cut at one place only.
pub proof fn lemma_cut_unique(run: Seq<InsnView>, bound: Option<u64>, n: int, m: int)
    requires
        is_cut(run, bound, n),
        is_cut(run, bound, m),
    ensures
        n == m,
{
    if n < m {
        assert(!stops(bound, run[n].address));
    } else if m < n {
        assert(!stops(bound, run[m].address));
    }
}

/// Every run is cut somewhere: `cut` names that place.
pub proof fn lemma_cut(run: Seq<InsnView>, bound: Option<u64>)
    ensures
        is_cut(run, bound, cut(run, bound) as int),
{
    lemma_cut_from(run, bound, 0);
    let n = choose|n: int| is_cut(run, bound, n);
    assert(is_cut(run, bound, (n as nat) as int));
}

proof fn lemma_cut_from(run: Seq<InsnView>, bound: Option<u64>, k: int)
    requires
        0 <= k <= run.len(),
        forall|j: int| 0 <= j < k ==> !stops(bound, (#[trigger] run[j]).address),
    ensures
        exists|n: int| is_cut(run, bound, n),
    decreases run.len() - k,
{
    if k < run.len() && !stops(bound, run[k].address) {
        lemma_cut_from(run, bound, k + 1);
    } else {
        assert(is_cut(run, bound, k));
    }
}

/// The first `n` instructions of a run are recorded alike from any longer
/// part of the run.
pub proof fn lemma_after_prefix_take(s: Exploration, run: Seq<InsnView>, n: nat, m: int)
    requires
        n <= m <= run.len(),
    ensures
        after_prefix(s, run.take(m), n) == after_prefix(s, run, n),
    decreases n,
{
    if n > 0 {
        lemma_after_prefix_take(s, run, (n - 1) as nat, m);
        assert(run.take(m)[n - 1] == run[n - 1]);
    }
}

/// To record what a run takes up to its boundary is to record the run.
pub proof fn lemma_after_run_taken(s: Exploration, run: Seq<InsnView>, bound: Option<u64>)
    ensures
        after_run(s, taken(run, bound), bound) == after_run(s, run, bound),
{
    lemma_cut(run, bound);
    let c = cut(run, bound);
    let part = run.take(c as int);
    assert(is_cut(part, bound, c as int)) by {
        assert forall|j: int| 0 <= j < c implies !stops(bound, (#[trigger] part[j]).address) by {
            assert(part[j] == run[j]);
        }
    }
    lemma_cut(part, bound);
    lemma_cut_unique(part, bound, c as int, cut(part, bound) as int);
    lemma_after_prefix_take(s, run, c, c as int);
}

/// A finite set of addresses has no more elements than there are addresses.
pub proof fn lemma_address_set_bound(s: Set<u64>)
    requires
        s.finite(),
    ensures
        s.len() <= address_space(),
{
    let f = |a: u64| a as int;
    let image = s.map(f);
    let all = vstd::set_lib::set_int_range(0, address_space() as int);
    vstd::set_lib::lemma_int_range(0, address_space() as int);
    assert(vstd::relations::injective(f));
    s.lemma_map_finite(f);
    vstd::set_lib::lemma_map_size(s, image, f);
    assert(image.subset_of(all)) by {
        assert forall|x: int| image.contains(x) implies all.contains(x) by {
            let a = choose|a: u64| s.contains(a) && f(a) == x;
            assert(0 <= x < address_space());
        }
    }
    vstd::set_lib::lemma_len_subset(image, all);
}

/// One recorded instruction forgets no address, and lengthens the worklist
/// only by an address that the state had not seen.
pub proof fn lemma_insn_progress(s: Exploration, insn: InsnView)
    requires
        finite(s),
    ensures
        finite(after_insn(s, insn)),
        seen(s).subset_of(seen(after_insn(s, insn))),
        seen(after_insn(s, insn)).finite(),
        after_insn(s, insn).worklist.len() + seen(s).len() <= s.worklist.len() + seen(
            after_insn(s, insn),
        ).len(),
{
    let r = after_insn(s, insn);
    let recorded = r.instructions;
    let pending = without(s.worklist, insn.address);
    lemma_without(s.worklist, insn.address);
    vstd::seq_lib::seq_to_set_is_finite(s.worklist);
    vstd::seq_lib::seq_to_set_is_finite(pending);
    vstd::seq_lib::seq_to_set_is_finite(r.worklist);
    let mid = Exploration { worklist: pending, targets: s.targets, instructions: recorded };
    assert(recorded.contains_key(insn.address));
    assert(seen(s).subset_of(seen(mid))) by {
        assert forall|x: u64| seen(s).contains(x) implies seen(mid).contains(x) by {
            if s.worklist.to_set().contains(x) {
                assert(s.worklist.contains(x));
                if x != insn.address {
                    assert(pending.contains(x));
                    assert(pending.to_set().contains(x));
                }
            }
        }
    }
    assert(seen(mid).finite());
    assert(seen(s).finite());
    vstd::set_lib::lemma_len_subset(seen(s), seen(mid));
    match branch_target(insn) {
        Some(t) => {
            if s.targets.contains(t) || pending.contains(t) {
                assert(r == mid);
            } else if recorded.contains_key(t) {
                assert(seen(r) =~= seen(mid));
            } else {
                assert(!seen(mid).contains(t)) by {
                    if pending.to_set().contains(t) {
                        assert(pending.contains(t));
                    }
                }
                assert(seen(r) =~= seen(mid).insert(t)) by {
                    assert forall|x: u64| seen(r).contains(x) == seen(mid).insert(t).contains(x) by {
                        if r.worklist.to_set().contains(x) {
                            assert(r.worklist.contains(x));
                            let j = choose|j: int| 0 <= j < r.worklist.len() && r.worklist[j] == x;
                            if j < pending.len() {
                                assert(pending[j] == x);
                                assert(pending.to_set().contains(x));
                            }
                        }
                        if pending.to_set().contains(x) {
                            assert(pending.contains(x));
                            let j = choose|j: int| 0 <= j < pending.len() && pending[j] == x;
                            assert(r.worklist[j] == x);
                            assert(r.worklist.to_set().contains(x));
                        }
                        if x == t {
                            assert(r.worklist[pending.len() as int] == t);
                            assert(r.worklist.to_set().contains(x));
                        }
                    }
                }
            }
        },
        None => {
            assert(r == mid);
        },
    }
}

/// The first instructions of a run forget no address, and lengthen the
/// worklist only by addresses that the state had not seen.
pub proof fn lemma_prefix_progress(s: Exploration, run: Seq<InsnView>, n: nat)
    requires
        finite(s),
    ensures
        finite(after_prefix(s, run, n)),
        seen(s).subset_of(seen(after_prefix(s, run, n))),
        seen(after_prefix(s, run, n)).finite(),
        seen(s).finite(),
        after_prefix(s, run, n).worklist.len() + seen(s).len() <= s.worklist.len() + seen(
            after_prefix(s, run, n),
        ).len(),
    decreases n,
{
    vstd::seq_lib::seq_to_set_is_finite(s.worklist);
    if n > 0 {
        let before = after_prefix(s, run, (n - 1) as nat);
        lemma_prefix_progress(s, run, (n - 1) as nat);
        lemma_insn_progress(before, run[n - 1]);
    }
}

/// A round over a worklist that is not empty either shortens the worklist
/// or adds to the addresses that the state has seen, and forgets none.
pub proof fn lemma_round_progress(s: Exploration, low: u64, high: u64, run: Seq<InsnView>)
    requires
        finite(s),
        s.worklist.len() > 0,
    ensures
        finite(round_with(s, low, high, run)),
        seen(s).finite(),
        seen(round_with(s, low, high, run)).finite(),
        seen(s).len() <= seen(round_with(s, low, high, run)).len() <= address_space(),
        seen(s).len() == seen(round_with(s, low, high, run)).len() ==> round_with(
            s,
            low,
            high,
            run,
        ).worklist.len() < s.worklist.len(),
{
    let r = round_with(s, low, high, run);
    let target = s.worklist.last();
    let rest = s.worklist.drop_last();
    vstd::seq_lib::seq_to_set_is_finite(s.worklist);
    vstd::seq_lib::seq_to_set_is_finite(rest);
    assert(seen(s).finite());
    assert forall|x: u64| s.worklist.to_set().contains(x) implies x == target || rest.to_set().contains(
        x,
    ) by {
        assert(s.worklist.contains(x));
        let j = choose|j: int| 0 <= j < s.worklist.len() && s.worklist[j] == x;
        if j < rest.len() {
            assert(rest[j] == x);
            assert(rest.contains(x));
        }
    }
    if s.instructions.contains_key(target) {
        assert(seen(r).finite());
        assert(seen(s).subset_of(seen(r)));
        vstd::set_lib::lemma_len_subset(seen(s), seen(r));
    } else {
        let base = Exploration {
            worklist: rest,
            targets: s.targets.insert(target),
            instructions: s.instructions,
        };
        let bound = boundary(s.targets, low, high, target);
        lemma_prefix_progress(base, run, cut(run, bound));
        assert(seen(s).subset_of(seen(base)));
        vstd::set_lib::lemma_len_subset(seen(s), seen(base));
        vstd::set_lib::lemma_len_subset(seen(base), seen(r));
    }
    lemma_address_set_bound(seen(r));
}

} // verus!
