//! What holds of every exploration: the outcome is determined by the image,
//! records stay as they were first written, runs respect their boundary
//! and the code region, the worklist never holds a decoded address, and
//! every decoded address is reachable from the entry point.

use vstd::prelude::*;

use crate::exploration::after_insn;
use crate::exploration::after_prefix;
use crate::exploration::after_run;
use crate::exploration::asks;
use crate::exploration::boundary;
use crate::exploration::cut;
use crate::exploration::Exploration;
use crate::exploration::initial;
use crate::exploration::is_outcome;
use crate::exploration::lemma_cut;
use crate::exploration::lemma_without;
use crate::exploration::round_answered;
use crate::exploration::round_with;
use crate::exploration::rounds_answered;
use crate::exploration::rounds;
use crate::exploration::run_at;
use crate::exploration::stops;
use crate::exploration::visited;
use crate::exploration::without;
use crate::image::ImageView;
use crate::instruction::branch_target;
use crate::instruction::InsnView;

verus! {

/// True when `later` holds every target of `earlier`, and every record of
/// `earlier` as it was.
pub open spec fn grows(earlier: Exploration, later: Exploration) -> bool {
    &&& earlier.targets.subset_of(later.targets)
    &&& forall|k: u64| #[trigger]
        earlier.instructions.contains_key(k) ==> later.instructions.contains_key(k)
            && later.instructions[k] == earlier.instructions[k]
}

/// True when every record that `later` has and `earlier` lacks lies at or
/// above a target of `later`: at or above the start of some run.
pub open spec fn above_targets(earlier: Exploration, later: Exploration) -> bool {
    forall|k: u64|
        later.instructions.contains_key(k) ==> earlier.instructions.contains_key(k) || exists|t: u64|
            later.targets.contains(t) && t <= k
}

/// True when the worklist holds no address twice and no decoded address.
pub open spec fn tidy(s: Exploration) -> bool {
    &&& s.worklist.no_duplicates()
    &&& forall|w: u64| s.worklist.contains(w) ==> !s.instructions.contains_key(w)
}

/// True when every decoded address lies in the code region.
pub open spec fn within(low: u64, high: u64, s: Exploration) -> bool {
    forall|k: u64| s.instructions.contains_key(k) ==> low <= k < high
}

/// True when some instruction of the run that starts at `from` is a jump
/// or a call with the immediate target `to`.
pub open spec fn is_edge(code: Seq<u8>, from: u64, to: u64) -> bool {
    exists|i: int|
        0 <= i < run_at(code, from).len() && branch_target(#[trigger] run_at(code, from)[i]) == Some(
            to,
        )
}

/// True when `path` leads from the entry point along jump and call edges.
pub open spec fn is_chain(code: Seq<u8>, entry_point: u64, path: Seq<u64>) -> bool {
    &&& path.len() > 0
    &&& path[0] == entry_point
    &&& forall|k: int| 0 <= k < path.len() - 1 ==> is_edge(code, #[trigger] path[k], path[k + 1])
}

/// True when a chain of jump and call edges leads from the entry point to `address`.
pub open spec fn is_start(code: Seq<u8>, entry_point: u64, address: u64) -> bool {
    exists|path: Seq<u64>| #[trigger] is_chain(code, entry_point, path) && path.last() == address
}

/// True when `address` is reachable from the entry point: it is the
/// address of an instruction of the run that starts where a chain of jump
/// and call edges ends.
pub open spec fn reachable(code: Seq<u8>, entry_point: u64, address: u64) -> bool {
    exists|start: u64, i: int|
        is_start(code, entry_point, start) && 0 <= i < run_at(code, start).len() && (
        #[trigger] run_at(code, start)[i]).address == address
}

/// True when a chain leads to every target and to every pending address,
/// and every decoded address is reachable.
pub open spec fn sound(image: ImageView, s: Exploration) -> bool {
    &&& forall|t: u64| s.targets.contains(t) ==> is_start(image.code, image.entry_point, t)
    &&& forall|w: u64| s.worklist.contains(w) ==> is_start(image.code, image.entry_point, w)
    &&& forall|k: u64|
        s.instructions.contains_key(k) ==> reachable(image.code, image.entry_point, k)
}

/// What grows twice has grown.
pub proof fn lemma_grows_transitive(a: Exploration, b: Exploration, c: Exploration)
    requires
        grows(a, b),
        grows(b, c),
    ensures
        grows(a, c),
{
    assert forall|k: u64| #[trigger] a.instructions.contains_key(k) implies c.instructions.contains_key(
        k,
    ) && c.instructions[k] == a.instructions[k] by {
        assert(b.instructions.contains_key(k));
    }
}

/// Recording one instruction keeps every target and every record, and
/// adds no key but the address of the instruction.
pub proof fn lemma_insn_grows(s: Exploration, insn: InsnView)
    ensures
        grows(s, after_insn(s, insn)),
        forall|k: u64|
            after_insn(s, insn).instructions.contains_key(k) ==> s.instructions.contains_key(k) || k
                == insn.address,
{
}

/// Recording the first `n` instructions of a run keeps every target and
/// every record, and adds no key but addresses of those instructions.
pub proof fn lemma_prefix_grows(s: Exploration, run: Seq<InsnView>, n: nat)
    requires
        n <= run.len(),
    ensures
        grows(s, after_prefix(s, run, n)),
        forall|k: u64|
            after_prefix(s, run, n).instructions.contains_key(k) ==> s.instructions.contains_key(k)
                || exists|j: int| 0 <= j < n && (#[trigger] run[j]).address == k,
    decreases n,
{
    if n > 0 {
        let before = after_prefix(s, run, (n - 1) as nat);
        lemma_prefix_grows(s, run, (n - 1) as nat);
        lemma_insn_grows(before, run[n - 1]);
        let after = after_prefix(s, run, n);
        assert forall|k: u64| after.instructions.contains_key(k) implies s.instructions.contains_key(k)
            || exists|j: int| 0 <= j < n && (#[trigger] run[j]).address == k by {
            if !s.instructions.contains_key(k) {
                if before.instructions.contains_key(k) {
                    let j = choose|j: int| 0 <= j < n - 1 && (#[trigger] run[j]).address == k;
                    assert(0 <= j < n && run[j].address == k);
                } else {
                    assert(run[n - 1].address == k);
                }
            }
        }
    }
}

/// Records stay as they were first written: a round removes no target and
/// no record, and changes no record.
pub proof fn lemma_round_grows(s: Exploration, low: u64, high: u64, run: Seq<InsnView>)
    ensures
        grows(s, round_with(s, low, high, run)),
{
    if s.worklist.len() > 0 && !s.instructions.contains_key(s.worklist.last()) {
        let target = s.worklist.last();
        let base = Exploration {
            worklist: s.worklist.drop_last(),
            targets: s.targets.insert(target),
            instructions: s.instructions,
        };
        let bound = boundary(s.targets, low, high, target);
        lemma_cut(run, bound);
        lemma_prefix_grows(base, run, cut(run, bound));
        let after = after_prefix(base, run, cut(run, bound));
        assert(round_with(s, low, high, run) == after);
        assert(grows(s, base));
        assert forall|k: u64| #[trigger] s.instructions.contains_key(k) implies after.instructions.contains_key(
            k,
        ) && after.instructions[k] == s.instructions[k] by {
            assert(base.instructions.contains_key(k));
        }
    }
}

/// Runs respect their boundary: no address that a run adds to the
/// instruction map lies at or behind the boundary of the run.
pub proof fn lemma_run_respects_boundary(s: Exploration, run: Seq<InsnView>, bound: Option<u64>)
    ensures
        forall|k: u64|
            after_run(s, run, bound).instructions.contains_key(k) && !s.instructions.contains_key(k)
                ==> !stops(bound, k),
{
    lemma_cut(run, bound);
    lemma_prefix_grows(s, run, cut(run, bound));
    let after = after_run(s, run, bound);
    assert forall|k: u64|
        after.instructions.contains_key(k) && !s.instructions.contains_key(k) implies !stops(
        bound,
        k,
    ) by {
        let j = choose|j: int| 0 <= j < cut(run, bound) && (#[trigger] run[j]).address == k;
        assert(!stops(bound, run[j].address));
    }
}

/// Decoded addresses stay in the code region: where the region has an
/// extent, every decoded address of the state lies in it, and the visit
/// records no instruction below it, every decoded address lies in the
/// region after the visit.
pub proof fn lemma_visit_within(s: Exploration, low: u64, high: u64, target: u64, run: Seq<InsnView>)
    requires
        low < high,
        within(low, high, s),
        forall|j: int|
            0 <= j < cut(run, boundary(s.targets, low, high, target)) ==> low <= (#[trigger] run[j]).address,
    ensures
        within(low, high, visited(s, low, high, target, run)),
{
    let base = Exploration {
        worklist: s.worklist,
        targets: s.targets.insert(target),
        instructions: s.instructions,
    };
    let bound = boundary(s.targets, low, high, target);
    lemma_cut(run, bound);
    lemma_prefix_grows(base, run, cut(run, bound));
    let after = after_prefix(base, run, cut(run, bound));
    assert(visited(s, low, high, target, run) == after);
    assert forall|k: u64| after.instructions.contains_key(k) implies low <= k < high by {
        if !base.instructions.contains_key(k) {
            let j = choose|j: int| 0 <= j < cut(run, bound) && (#[trigger] run[j]).address == k;
            assert(!stops(bound, run[j].address));
        } else {
            assert(s.instructions.contains_key(k));
        }
    }
}

/// Decoded addresses stay in the code region: where the region has an
/// extent, every decoded address lay in it before, no target lies below
/// it, and the records that were added lie below its end and at or above
/// targets, every decoded address lies in the region.
pub proof fn lemma_within_region(low: u64, high: u64, earlier: Exploration, later: Exploration)
    requires
        low < high,
        within(low, high, earlier),
        above_targets(earlier, later),
        forall|k: u64| later.instructions.contains_key(k) ==> k < high,
        forall|t: u64| later.targets.contains(t) ==> low <= t,
    ensures
        within(low, high, later),
{
    assert forall|k: u64| later.instructions.contains_key(k) implies low <= k < high by {
        if !earlier.instructions.contains_key(k) {
            let t = choose|t: u64| later.targets.contains(t) && t <= k;
        }
    }
}

/// Recording one instruction keeps the worklist free of duplicates and of
/// decoded addresses.
pub proof fn lemma_insn_tidy(s: Exploration, insn: InsnView)
    requires
        tidy(s),
    ensures
        tidy(after_insn(s, insn)),
{
    lemma_without(s.worklist, insn.address);
    let r = after_insn(s, insn);
    let pending = without(s.worklist, insn.address);
    assert forall|w: u64| r.worklist.contains(w) implies !r.instructions.contains_key(w) by {
        let j = choose|j: int| 0 <= j < r.worklist.len() && r.worklist[j] == w;
        if j < pending.len() {
            assert(pending[j] == w);
            assert(pending.contains(w));
            assert(s.worklist.contains(w));
            assert(w != insn.address);
            assert(!s.instructions.contains_key(w));
        } else {
            assert(branch_target(insn) == Some(w));
        }
    }
    assert forall|a: int, b: int|
        0 <= a < r.worklist.len() && 0 <= b < r.worklist.len() && a != b implies r.worklist[a]
        != r.worklist[b] by {
        if a < pending.len() && b < pending.len() {
            assert(pending[a] != pending[b]);
        } else if a < pending.len() {
            assert(pending.contains(pending[a]));
        } else if b < pending.len() {
            assert(pending.contains(pending[b]));
        }
    }
}

/// Recording the first `n` instructions of a run keeps the worklist tidy.
pub proof fn lemma_prefix_tidy(s: Exploration, run: Seq<InsnView>, n: nat)
    requires
        tidy(s),
    ensures
        tidy(after_prefix(s, run, n)),
    decreases n,
{
    if n > 0 {
        lemma_prefix_tidy(s, run, (n - 1) as nat);
        lemma_insn_tidy(after_prefix(s, run, (n - 1) as nat), run[n - 1]);
    }
}

/// The state before the first round has a tidy worklist.
pub proof fn lemma_initial_tidy(entry_point: u64)
    ensures
        tidy(initial(entry_point)),
{
}

/// No address is decoded twice: a round keeps the worklist free of
/// duplicates and of decoded addresses, so the address that a round takes
/// off a tidy worklist is never one that is decoded already.
pub proof fn lemma_round_tidy(s: Exploration, low: u64, high: u64, run: Seq<InsnView>)
    requires
        tidy(s),
    ensures
        tidy(round_with(s, low, high, run)),
        s.worklist.len() > 0 ==> !s.instructions.contains_key(s.worklist.last()),
{
    if s.worklist.len() > 0 {
        let target = s.worklist.last();
        let rest = s.worklist.drop_last();
        assert(s.worklist[s.worklist.len() - 1] == target);
        assert(s.worklist.contains(target));
        let base = Exploration {
            worklist: rest,
            targets: s.targets.insert(target),
            instructions: s.instructions,
        };
        assert(tidy(base)) by {
            assert forall|w: u64| rest.contains(w) implies !s.instructions.contains_key(w) by {
                let j = choose|j: int| 0 <= j < rest.len() && rest[j] == w;
                assert(s.worklist[j] == w);
                assert(s.worklist.contains(w));
            }
        }
        lemma_prefix_tidy(base, run, cut(run, boundary(s.targets, low, high, target)));
    }
}

/// A chain leads to the entry point.
pub proof fn lemma_entry_is_start(code: Seq<u8>, entry_point: u64)
    ensures
        is_start(code, entry_point, entry_point),
{
    let path = seq![entry_point];
    assert(is_chain(code, entry_point, path));
    assert(path.last() == entry_point);
}

/// A chain that leads to `from` goes on along an edge to `to`.
pub proof fn lemma_edge_extends(code: Seq<u8>, entry_point: u64, from: u64, to: u64)
    requires
        is_start(code, entry_point, from),
        is_edge(code, from, to),
    ensures
        is_start(code, entry_point, to),
{
    let path = choose|path: Seq<u64>| #[trigger]
        is_chain(code, entry_point, path) && path.last() == from;
    let longer = path.push(to);
    assert forall|k: int| 0 <= k < longer.len() - 1 implies is_edge(
        code,
        #[trigger] longer[k],
        longer[k + 1],
    ) by {
        if k < path.len() - 1 {
            assert(longer[k] == path[k]);
            assert(longer[k + 1] == path[k + 1]);
            assert(is_edge(code, path[k], path[k + 1]));
        } else {
            assert(longer[k] == from);
            assert(longer[k + 1] == to);
        }
    }
    assert(longer[0] == path[0]);
    assert(is_chain(code, entry_point, longer));
    assert(longer.last() == to);
}

/// The state before the first round is sound.
pub proof fn lemma_initial_sound(image: ImageView)
    ensures
        sound(image, initial(image.entry_point)),
{
    lemma_entry_is_start(image.code, image.entry_point);
    let s = initial(image.entry_point);
    assert forall|w: u64| s.worklist.contains(w) implies w == image.entry_point by {
        let j = choose|j: int| 0 <= j < s.worklist.len() && s.worklist[j] == w;
    }
}

/// Recording the first `n` instructions of the run that starts at a
/// target to which a chain leads keeps the state sound.
pub proof fn lemma_prefix_sound(image: ImageView, s: Exploration, target: u64, n: nat)
    requires
        sound(image, s),
        is_start(image.code, image.entry_point, target),
        n <= run_at(image.code, target).len(),
    ensures
        sound(image, after_prefix(s, run_at(image.code, target), n)),
    decreases n,
{
    if n > 0 {
        let run = run_at(image.code, target);
        let before = after_prefix(s, run, (n - 1) as nat);
        lemma_prefix_sound(image, s, target, (n - 1) as nat);
        let insn = run[n - 1];
        let after = after_insn(before, insn);
        lemma_without(before.worklist, insn.address);
        assert(reachable(image.code, image.entry_point, insn.address)) by {
            assert(run_at(image.code, target)[n - 1].address == insn.address);
        }
        match branch_target(insn) {
            Some(t) => {
                assert(is_edge(image.code, target, t)) by {
                    assert(branch_target(run_at(image.code, target)[n - 1]) == Some(t));
                }
                lemma_edge_extends(image.code, image.entry_point, target, t);
            },
            None => {},
        }
        let pending = without(before.worklist, insn.address);
        assert forall|w: u64| after.worklist.contains(w) implies is_start(
            image.code,
            image.entry_point,
            w,
        ) by {
            let j = choose|j: int| 0 <= j < after.worklist.len() && after.worklist[j] == w;
            if j < pending.len() {
                assert(pending[j] == w);
                assert(pending.contains(w));
                assert(before.worklist.contains(w));
            }
        }
    }
}

/// Every decoded address is reachable: a round over the image keeps the
/// state sound, whether the engine answers with the run of the address
/// that is visited or with nothing.
pub proof fn lemma_round_sound(image: ImageView, s: Exploration, answered: bool)
    requires
        sound(image, s),
    ensures
        sound(image, round_answered(image, s, answered)),
{
    if s.worklist.len() > 0 {
        let target = s.worklist.last();
        let rest = s.worklist.drop_last();
        assert(s.worklist[s.worklist.len() - 1] == target);
        assert(s.worklist.contains(target));
        assert forall|w: u64| rest.contains(w) implies s.worklist.contains(w) by {
            let j = choose|j: int| 0 <= j < rest.len() && rest[j] == w;
            assert(s.worklist[j] == w);
        }
        if !s.instructions.contains_key(target) {
            let base = Exploration {
                worklist: rest,
                targets: s.targets.insert(target),
                instructions: s.instructions,
            };
            let bound = boundary(s.targets, image.min_insn_addr, image.max_insn_addr, target);
            assert(sound(image, base));
            if answered {
                let run = run_at(image.code, target);
                lemma_cut(run, bound);
                lemma_prefix_sound(image, base, target, cut(run, bound));
            } else {
                lemma_cut(Seq::<InsnView>::empty(), bound);
            }
        }
    }
}

/// Rounds add up.
pub proof fn lemma_rounds_add(image: ImageView, s: Exploration, n: nat, m: nat)
    ensures
        rounds(image, s, n + m) == rounds(image, rounds(image, s, n), m),
    decreases m,
{
    if m > 0 {
        lemma_rounds_add(image, s, n, (m - 1) as nat);
        assert(n + m - 1 == n + (m - 1));
    }
}

/// Rounds over an empty worklist change nothing.
pub proof fn lemma_rounds_at_rest(image: ImageView, s: Exploration, n: nat)
    requires
        s.worklist.len() == 0,
    ensures
        rounds(image, s, n) == s,
    decreases n,
{
    if n > 0 {
        lemma_rounds_at_rest(image, s, (n - 1) as nat);
    }
}

/// The outcome is determined: two explorations of one image from one state
/// end in the same state.
pub proof fn lemma_outcome_unique(image: ImageView, start: Exploration, a: Exploration, b: Exploration)
    requires
        is_outcome(image, start, a),
        is_outcome(image, start, b),
    ensures
        a == b,
{
    let n = choose|n: nat| rounds(image, start, n) == a && a.worklist.len() == 0;
    let m = choose|m: nat| rounds(image, start, m) == b && b.worklist.len() == 0;
    if n <= m {
        lemma_rounds_add(image, start, n, (m - n) as nat);
        lemma_rounds_at_rest(image, a, (m - n) as nat);
    } else {
        lemma_rounds_add(image, start, m, (n - m) as nat);
        lemma_rounds_at_rest(image, b, (n - m) as nat);
    }
}

/// The addresses that the rounds had decoded, in the order of the rounds:
/// one for each round that found an address on the worklist at which
/// nothing was decoded yet.
pub open spec fn asked(image: ImageView, start: Exploration, answers: Seq<bool>) -> Seq<u64>
    decreases answers.len(),
{
    if answers.len() == 0 {
        Seq::empty()
    } else {
        let before = rounds_answered(image, start, answers.drop_last());
        let earlier = asked(image, start, answers.drop_last());
        if asks(before) {
            earlier.push(before.worklist.last())
        } else {
            earlier
        }
    }
}

/// True when every address of `visited` is a target and none is pending.
pub open spec fn settled(s: Exploration, visited: Set<u64>) -> bool {
    forall|a: u64| visited.contains(a) ==> s.targets.contains(a) && !s.worklist.contains(a)
}

/// Recording one instruction leaves settled addresses settled: only an
/// address that is no target joins the worklist.
pub proof fn lemma_insn_settled(s: Exploration, insn: InsnView, visited: Set<u64>)
    requires
        settled(s, visited),
    ensures
        settled(after_insn(s, insn), visited),
{
    lemma_without(s.worklist, insn.address);
    let r = after_insn(s, insn);
    let pending = without(s.worklist, insn.address);
    assert forall|a: u64| visited.contains(a) implies r.targets.contains(a) && !r.worklist.contains(
        a,
    ) by {
        if r.worklist.contains(a) {
            let j = choose|j: int| 0 <= j < r.worklist.len() && r.worklist[j] == a;
            if j < pending.len() {
                assert(pending[j] == a);
                assert(pending.contains(a));
            }
        }
    }
}

/// Recording the first `n` instructions of a run leaves settled addresses settled.
pub proof fn lemma_prefix_settled(s: Exploration, run: Seq<InsnView>, n: nat, visited: Set<u64>)
    requires
        settled(s, visited),
    ensures
        settled(after_prefix(s, run, n), visited),
    decreases n,
{
    if n > 0 {
        lemma_prefix_settled(s, run, (n - 1) as nat, visited);
        lemma_insn_settled(after_prefix(s, run, (n - 1) as nat), run[n - 1], visited);
    }
}

/// A round over a tidy worklist has no settled address decoded, and
/// settles the address that it has decoded.
pub proof fn lemma_round_settled(s: Exploration, low: u64, high: u64, run: Seq<InsnView>, visited: Set<u64>)
    requires
        tidy(s),
        settled(s, visited),
    ensures
        asks(s) ==> !visited.contains(s.worklist.last()),
        settled(
            round_with(s, low, high, run),
            if asks(s) {
                visited.insert(s.worklist.last())
            } else {
                visited
            },
        ),
{
    if s.worklist.len() > 0 {
        let target = s.worklist.last();
        let rest = s.worklist.drop_last();
        let last = s.worklist.len() - 1;
        assert(s.worklist[last] == target);
        assert(s.worklist.contains(target));
        assert forall|w: u64| rest.contains(w) implies s.worklist.contains(w) && w != target by {
            let j = choose|j: int| 0 <= j < rest.len() && rest[j] == w;
            assert(s.worklist[j] == w);
        }
        if asks(s) {
            let base = Exploration {
                worklist: rest,
                targets: s.targets.insert(target),
                instructions: s.instructions,
            };
            let wider = visited.insert(target);
            assert(settled(base, wider));
            lemma_prefix_settled(base, run, cut(run, boundary(s.targets, low, high, target)), wider);
        }
    }
}

/// At most one decode run starts at an address: in an exploration from a
/// tidy state, the addresses that the rounds have decoded differ pairwise,
/// and each of them is a target in the end and pending no more.
pub proof fn lemma_asked_once(image: ImageView, start: Exploration, answers: Seq<bool>)
    requires
        tidy(start),
    ensures
        asked(image, start, answers).no_duplicates(),
        tidy(rounds_answered(image, start, answers)),
        settled(rounds_answered(image, start, answers), asked(image, start, answers).to_set()),
    decreases answers.len(),
{
    if answers.len() > 0 {
        let shorter = answers.drop_last();
        lemma_asked_once(image, start, shorter);
        let before = rounds_answered(image, start, shorter);
        let earlier = asked(image, start, shorter);
        let run = if answers.last() {
            run_at(image.code, before.worklist.last())
        } else {
            Seq::empty()
        };
        lemma_round_tidy(before, image.min_insn_addr, image.max_insn_addr, run);
        lemma_round_settled(before, image.min_insn_addr, image.max_insn_addr, run, earlier.to_set());
        let after = rounds_answered(image, start, answers);
        assert(after == round_with(before, image.min_insn_addr, image.max_insn_addr, run));
        if asks(before) {
            let target = before.worklist.last();
            let all = earlier.push(target);
            assert(!earlier.contains(target));
            assert(all.to_set() =~= earlier.to_set().insert(target)) by {
                assert forall|a: u64| all.to_set().contains(a) == earlier.to_set().insert(
                    target,
                ).contains(a) by {
                    if all.contains(a) {
                        let j = choose|j: int| 0 <= j < all.len() && all[j] == a;
                        if j < earlier.len() {
                            assert(earlier[j] == a);
                        }
                    }
                    if earlier.contains(a) {
                        let j = choose|j: int| 0 <= j < earlier.len() && earlier[j] == a;
                        assert(all[j] == a);
                    }
                    if a == target {
                        assert(all[earlier.len() as int] == a);
                    }
                }
            }
            assert forall|i: int, j: int| 0 <= i < all.len() && 0 <= j < all.len() && i != j implies all[i]
                != all[j] by {
                if i < earlier.len() && j < earlier.len() {
                    assert(earlier[i] != earlier[j]);
                } else if i < earlier.len() {
                    assert(earlier.contains(earlier[i]));
                } else if j < earlier.len() {
                    assert(earlier.contains(earlier[j]));
                }
            }
        }
    } else {
        assert(asked(image, start, answers).to_set() =~= Set::<u64>::empty());
    }
}

} // verus!
