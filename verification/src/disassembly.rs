//! The disassembly of one image: the exploration state, and the driver that
//! visits addresses until none is left.

use capstone::Capstone;
use vstd::prelude::*;

use crate::address_map::AddressMap;
use crate::address_map::DecodedForm;
use crate::address_map::InstructionDisassembly;
use crate::elf::layout_of;
use crate::elf::parse;
use crate::engine::disasm_all;
use crate::engine::held;
use crate::engine::insn_address;
use crate::engine::insn_count;
use crate::engine::insn_detail;
use crate::engine::insn_length;
use crate::engine::insn_text;
use crate::engine::x86_64_engine;
use crate::exploration::address_space;
use crate::exploration::after_insn;
use crate::exploration::after_prefix;
use crate::exploration::asks;
use crate::exploration::boundary;
use crate::exploration::Exploration;
use crate::exploration::finite;
use crate::exploration::initial;
use crate::exploration::is_cut;
use crate::exploration::is_first_occurrence;
use crate::exploration::is_outcome;
use crate::exploration::lemma_after_run_taken;
use crate::exploration::lemma_cut;
use crate::exploration::lemma_cut_unique;
use crate::exploration::lemma_first_occurrence_unique;
use crate::exploration::lemma_round_progress;
use crate::exploration::lemma_rounds_all_answered;
use crate::exploration::round_answered;
use crate::exploration::rounds_answered;
use crate::exploration::run_at;
use crate::exploration::seen;
use crate::exploration::stops;
use crate::exploration::taken;
use crate::exploration::unbounded;
use crate::exploration::visited;
use crate::exploration::without;
use crate::image::bounds_of;
use crate::image::Image;
use crate::image::ImageLayout;
use crate::image::ImageView;
use crate::image::sections_view;
use crate::instruction::contiguous;
use crate::instruction::DecodedInsn;
use crate::instruction::lemma_contiguous_from_base;
use crate::instruction::run_view;
use crate::laws::grows;
use crate::laws::above_targets;
use crate::laws::asked;
use crate::laws::lemma_asked_once;
use crate::laws::lemma_grows_transitive;
use crate::laws::lemma_insn_grows;
use crate::laws::lemma_initial_sound;
use crate::laws::lemma_round_grows;
use crate::laws::lemma_round_sound;
use crate::laws::lemma_round_tidy;
use crate::laws::sound;
use crate::laws::tidy;
use crate::render::line_of;
use crate::render::render_marker;

verus! {

/// Why a disassembly could not be set up.
#[derive(Clone, Copy, Debug, PartialEq, Eq, Structural)]
pub enum ConstructionError {
    /// The bytes hold no layout that can be read, or the layout names a
    /// code section that does not fit into the address space.
    MalformedImage,
    /// The decoding engine could not be created.
    EngineUnavailable,
}

/// The disassembly of one image.
pub struct Disassembly {
    image: Image,
    engine: Capstone,
    worklist: Vec<u64>,
    targets: AddressMap,
    instructions: AddressMap,
    file: String,
}

impl View for Disassembly {
    type V = Exploration;

    closed spec fn view(&self) -> Exploration {
        Exploration {
            worklist: self.worklist@,
            targets: self.targets@.dom(),
            instructions: self.instructions@,
        }
    }
}

/// True when no decoded address lies at or behind the end of the code
/// region, unless the image has no code section.
pub open spec fn below_end(image: ImageView, s: Exploration) -> bool {
    !unbounded(image.min_insn_addr, image.max_insn_addr) ==> forall|k: u64|
        s.instructions.contains_key(k) ==> k < image.max_insn_addr
}

/// True when every round of `answers` that has nothing decoded counts as
/// answered.
pub open spec fn free_rounds_answered(image: ImageView, start: Exploration, answers: Seq<bool>) -> bool {
    forall|i: int|
        0 <= i < answers.len() && !asks(rounds_answered(image, start, #[trigger] answers.take(i)))
            ==> answers[i]
}

/// The first position of `address` in `worklist`.
fn position_of(worklist: &Vec<u64>, address: u64) -> (found: Option<usize>)
    ensures
        match found {
            Some(i) => is_first_occurrence(worklist@, address, i as int),
            None => !worklist@.contains(address),
        },
{
    let mut i: usize = 0;
    while i < worklist.len()
        invariant
            i <= worklist.len(),
            forall|j: int| 0 <= j < i ==> worklist@[j] != address,
        decreases worklist.len() - i,
    {
        if worklist[i] == address {
            return Some(i);
        }
        i += 1;
    }
    None
}

/// Takes the first occurrence of `address` out of `worklist`; the last
/// element moves into its place.
fn remove_pending(worklist: &mut Vec<u64>, address: u64)
    ensures
        final(worklist)@ == without(old(worklist)@, address),
{
    match position_of(worklist, address) {
        Some(i) => {
            proof {
                let c = choose|c: int| is_first_occurrence(worklist@, address, c);
                lemma_first_occurrence_unique(worklist@, address, i as int, c);
            }
            worklist.swap_remove(i);
        },
        None => {
            proof {
                assert forall|c: int| !is_first_occurrence(worklist@, address, c) by {
                    if is_first_occurrence(worklist@, address, c) {
                        assert(worklist@.contains(address));
                    }
                }
            }
        },
    }
}

/// Whether a run with boundary `bound` stops before an instruction at `address`.
fn run_stops(bound: Option<u64>, address: u64) -> (stop: bool)
    ensures
        stop == stops(bound, address),
{
    match bound {
        Some(b) => address >= b,
        None => false,
    }
}

impl Disassembly {
    /// The image that is explored.
    pub closed spec fn image(&self) -> ImageView {
        self.image@
    }

    /// The name under which the image was found.
    pub closed spec fn file_name(&self) -> Seq<char> {
        self.file@
    }

    /// The decoded addresses in ascending order: the order of the listing.
    pub closed spec fn listing_order(&self) -> Seq<u64> {
        self.instructions.ordered_keys()
    }

    /// The invariant of the representation. It holds what every state of
    /// an exploration has: no decoded address at or behind the end of the
    /// code region.
    pub closed spec fn wf(&self) -> bool {
        &&& self.targets.wf()
        &&& self.instructions.wf()
        &&& below_end(self.image@, self@)
    }

    /// What the invariant gives: no decoded address at or behind the end of
    /// the code region, finitely many targets and decoded addresses, and a
    /// listing order that is ascending and holds each decoded address once.
    pub proof fn lemma_wf(&self)
        requires
            self.wf(),
        ensures
            below_end(self.image(), self@),
            finite(self@),
            crate::address_map::strictly_increasing(self.listing_order()),
            self.listing_order().to_set() == self@.instructions.dom(),
            self.listing_order().len() == self@.instructions.dom().len(),
    {
        self.targets.lemma_ordered_keys();
        self.instructions.lemma_ordered_keys();
    }

    /// Sets up the exploration of `image` with `engine`: the entry point is
    /// the one target and the one address to visit.
    fn assemble(file: String, image: Image, engine: Capstone) -> (d: Disassembly)
        ensures
            d.wf(),
            d.image() == image@,
            d.file_name() == file@,
            d@ == initial(image@.entry_point),
            sound(d.image(), d@),
            tidy(d@),
    {
        let entry = image.entry_point();
        let mut targets = AddressMap::new();
        targets.insert_if_absent(entry, InstructionDisassembly { disasm: None });
        let mut worklist: Vec<u64> = Vec::new();
        worklist.push(entry);
        let d = Disassembly {
            image,
            engine,
            worklist,
            targets,
            instructions: AddressMap::new(),
            file,
        };
        proof {
            assert(d@.targets =~= initial(entry).targets);
            assert(d@.worklist =~= initial(entry).worklist);
            lemma_initial_sound(d.image());
        }
        d
    }

    /// The outcome of construction for each answer of the engine's builder:
    /// a layout without code bounds is refused first, then a missing engine.
    fn with_engine(file: String, bytes: Vec<u8>, layout: &ImageLayout, engine: Option<Capstone>) -> (made:
        Result<Disassembly, ConstructionError>)
        ensures
            match made {
                Ok(d) => {
                    &&& engine is Some
                    &&& d.wf()
                    &&& d.file_name() == file@
                    &&& d.image().code == bytes@
                    &&& d.image().entry_point == layout.entry_point
                    &&& bounds_of(sections_view(layout.sections@)) == Some(
                        (d.image().min_insn_addr, d.image().max_insn_addr),
                    )
                    &&& d@ == initial(layout.entry_point)
                    &&& sound(d.image(), d@)
                    &&& tidy(d@)
                },
                Err(ConstructionError::MalformedImage) => bounds_of(sections_view(layout.sections@))
                    is None,
                Err(ConstructionError::EngineUnavailable) => engine is None && bounds_of(
                    sections_view(layout.sections@),
                ) is Some,
            },
    {
        match Image::from_layout(bytes, layout) {
            Err(_) => Err(ConstructionError::MalformedImage),
            Ok(image) => match engine {
                None => Err(ConstructionError::EngineUnavailable),
                Some(e) => Ok(Self::assemble(file, image, e)),
            },
        }
    }

    /// Sets up the disassembly of the image in `bytes` with a layout that
    /// is given, whatever the bytes hold. `file` is the name under which
    /// the image was found. The layout is refused exactly when its code
    /// section has no end in the address space; the engine may fail to
    /// come up on any other input.
    pub fn with_layout(file: String, bytes: Vec<u8>, layout: &ImageLayout) -> (made: Result<
        Disassembly,
        ConstructionError,
    >)
        ensures
            match made {
                Ok(d) => {
                    &&& d.wf()
                    &&& d.file_name() == file@
                    &&& d.image().code == bytes@
                    &&& d.image().entry_point == layout.entry_point
                    &&& bounds_of(sections_view(layout.sections@)) == Some(
                        (d.image().min_insn_addr, d.image().max_insn_addr),
                    )
                    &&& d@ == initial(layout.entry_point)
                    &&& sound(d.image(), d@)
                    &&& tidy(d@)
                },
                Err(ConstructionError::MalformedImage) => bounds_of(sections_view(layout.sections@))
                    is None,
                Err(ConstructionError::EngineUnavailable) => bounds_of(sections_view(layout.sections@))
                    is Some,
            },
    {
        Self::with_engine(file, bytes, layout, x86_64_engine())
    }

    /// Sets up the disassembly of the image in `bytes`, from the layout
    /// that the bytes hold. `file` is the name under which the image was
    /// found. The image is refused exactly when no layout can be read out
    /// of the bytes, or the code section of the layout has no end in the
    /// address space; the engine may fail to come up on any other input.
    pub fn new(file: String, bytes: Vec<u8>) -> (made: Result<Disassembly, ConstructionError>)
        ensures
            match made {
                Ok(d) => {
                    &&& layout_of(bytes@) matches Some(l)
                    &&& d.wf()
                    &&& d.file_name() == file@
                    &&& d.image().code == bytes@
                    &&& d.image().entry_point == l.entry_point
                    &&& bounds_of(l.sections) == Some(
                        (d.image().min_insn_addr, d.image().max_insn_addr),
                    )
                    &&& d@ == initial(l.entry_point)
                    &&& sound(d.image(), d@)
                    &&& tidy(d@)
                },
                Err(ConstructionError::MalformedImage) => layout_of(bytes@) is None || bounds_of(
                    layout_of(bytes@)->Some_0.sections,
                ) is None,
                Err(ConstructionError::EngineUnavailable) => layout_of(bytes@) matches Some(l)
                    && bounds_of(l.sections) is Some,
            },
    {
        match parse(bytes.as_slice()) {
            None => Err(ConstructionError::MalformedImage),
            Some(layout) => Self::with_engine(file, bytes, &layout, x86_64_engine()),
        }
    }

    /// The name under which the image was found.
    pub fn file(&self) -> (name: &String)
        ensures
            name@ == self.file_name(),
    {
        &self.file
    }

    /// The address at which the exploration starts.
    pub fn entry_point(&self) -> (entry: u64)
        ensures
            entry == self.image().entry_point,
    {
        self.image.entry_point()
    }

    /// The code region: the lowest instruction address, and the address
    /// behind the highest.
    pub fn code_bounds(&self) -> (bounds: (u64, u64))
        ensures
            bounds == (self.image().min_insn_addr, self.image().max_insn_addr),
    {
        self.image.code_bounds()
    }

    /// The addresses that await a visit; the last one is visited next.
    pub fn pending(&self) -> (worklist: &Vec<u64>)
        ensures
            worklist@ == self@.worklist,
    {
        &self.worklist
    }

    /// Whether `address` is a confirmed target.
    pub fn is_target(&self, address: u64) -> (known: bool)
        requires
            self.wf(),
        ensures
            known == self@.targets.contains(address),
    {
        self.targets.contains_key(address)
    }

    /// Whether an instruction is decoded at exactly `address`.
    pub fn instruction_at(&self, address: u64) -> (decoded: bool)
        requires
            self.wf(),
        ensures
            decoded == self@.instructions.contains_key(address),
    {
        self.instructions.contains_key(address)
    }

    /// The record of the instruction at `address`, if one is decoded there.
    pub fn instruction(&self, address: u64) -> (record: Option<&InstructionDisassembly>)
        requires
            self.wf(),
        ensures
            record is Some == self@.instructions.contains_key(address),
            record matches Some(r) ==> r@ == self@.instructions[address],
    {
        self.instructions.get(address)
    }

    /// The number of decoded instructions.
    pub fn instruction_count(&self) -> (n: usize)
        requires
            self.wf(),
        ensures
            n == self@.instructions.dom().len(),
    {
        self.instructions.len()
    }

    /// Where a run that starts at `address` has to stop: the least target
    /// above `address`, clipped to the end of the code region, and that
    /// end where no target lies above. `None` for an image without code
    /// section, whose bounds are `(0, 0)`.
    pub fn next_target(&self, address: u64) -> (bound: Option<u64>)
        requires
            self.wf(),
        ensures
            bound == boundary(
                self@.targets,
                self.image().min_insn_addr,
                self.image().max_insn_addr,
                address,
            ),
    {
        let (low, high) = self.image.code_bounds();
        if low == 0 && high == 0 {
            None
        } else {
            match self.targets.successor(address) {
                Some(next) => if next < high {
                    Some(next)
                } else {
                    Some(high)
                },
                None => Some(high),
            }
        }
    }

    /// The immediate target of `insn`, if it is a jump or a call that names one.
    pub fn insn_target(&self, insn: &DecodedInsn) -> (target: Option<u64>)
        ensures
            target == crate::instruction::branch_target(insn@),
    {
        insn.insn_target()
    }

    /// Takes the next address off the worklist. The address is handed out
    /// for decoding only if no instruction is decoded at it yet.
    pub fn pop_target(&mut self) -> (target: Option<u64>)
        requires
            old(self).wf(),
        ensures
            final(self).wf(),
            final(self).image() == old(self).image(),
            final(self).file_name() == old(self).file_name(),
            final(self)@.targets == old(self)@.targets,
            final(self)@.instructions == old(self)@.instructions,
            old(self)@.worklist.len() == 0 ==> target is None && final(self)@.worklist == old(
                self,
            )@.worklist,
            old(self)@.worklist.len() > 0 ==> final(self)@.worklist == old(self)@.worklist.drop_last()
                && target == if old(self)@.instructions.contains_key(old(self)@.worklist.last()) {
                None::<u64>
            } else {
                Some(old(self)@.worklist.last())
            },
    {
        match self.worklist.pop() {
            None => None,
            Some(target) => {
                assert(self.worklist@ =~= old(self).worklist@.drop_last());
                assert(self@.instructions == old(self)@.instructions);
                if self.instructions.contains_key(target) {
                    None
                } else {
                    Some(target)
                }
            },
        }
    }

    /// Records one instruction of a run.
    fn record(&mut self, insn: &DecodedInsn)
        requires
            old(self).wf(),
            !unbounded(old(self).image().min_insn_addr, old(self).image().max_insn_addr)
                ==> insn.address < old(self).image().max_insn_addr,
        ensures
            final(self).wf(),
            final(self).image() == old(self).image(),
            final(self).file_name() == old(self).file_name(),
            final(self)@ == after_insn(old(self)@, insn@),
    {
        let form = DecodedForm { text: insn.text.clone(), length: insn.length };
        self.instructions.insert_if_absent(insn.address, InstructionDisassembly { disasm: Some(form) });
        remove_pending(&mut self.worklist, insn.address);
        let ghost recorded = self@.instructions;
        assert(below_end(self.image@, self@)) by {
            assert(below_end(old(self).image@, old(self)@));
            assert forall|k: u64| recorded.contains_key(k) implies old(self)@.instructions.contains_key(k)
                || k == insn.address by {}
        }
        match insn.insn_target() {
            Some(t) => {
                if self.targets.contains_key(t) {
                } else if position_of(&self.worklist, t).is_some() {
                } else if self.instructions.contains_key(t) {
                    self.targets.insert_if_absent(t, InstructionDisassembly { disasm: None });
                    assert(self.targets@.dom() =~= old(self).targets@.dom().insert(t));
                    assert(self@.instructions == recorded);
                } else {
                    self.worklist.push(t);
                    assert(self@.instructions == recorded);
                }
            },
            None => {},
        }
    }

    /// Visits `target`, which decodes to `run`: computes the boundary,
    /// confirms `target`, and records the instructions of `run` in order up
    /// to the first one at or behind the boundary. Returns how many were
    /// recorded. No address at or behind the boundary is added to the
    /// instruction map.
    pub fn visit(&mut self, target: u64, run: &Vec<DecodedInsn>) -> (consumed: usize)
        requires
            old(self).wf(),
        ensures
            final(self).wf(),
            final(self).image() == old(self).image(),
            final(self).file_name() == old(self).file_name(),
            final(self)@ == visited(
                old(self)@,
                old(self).image().min_insn_addr,
                old(self).image().max_insn_addr,
                target,
                run_view(run@),
            ),
            is_cut(
                run_view(run@),
                boundary(
                    old(self)@.targets,
                    old(self).image().min_insn_addr,
                    old(self).image().max_insn_addr,
                    target,
                ),
                consumed as int,
            ),
            forall|k: u64|
                final(self)@.instructions.contains_key(k) && !old(self)@.instructions.contains_key(k)
                    ==> !stops(
                    boundary(
                        old(self)@.targets,
                        old(self).image().min_insn_addr,
                        old(self).image().max_insn_addr,
                        target,
                    ),
                    k,
                ),
            forall|k: u64|
                final(self)@.instructions.contains_key(k) && !old(self)@.instructions.contains_key(k)
                    ==> exists|j: int| 0 <= j < consumed && (#[trigger] run@[j]).address == k,
            final(self)@.targets.contains(target),
    {
        let bound = self.next_target(target);
        self.targets.insert_if_absent(target, InstructionDisassembly { disasm: None });
        let ghost base = self@;
        let ghost insns = run_view(run@);
        proof {
            assert(base.targets =~= old(self)@.targets.insert(target));
            assert(base.instructions == old(self)@.instructions);
        }
        let mut i: usize = 0;
        while i < run.len()
            invariant
                self.wf(),
                self.image() == old(self).image(),
                self.file_name() == old(self).file_name(),
                insns == run_view(run@),
                i <= run.len(),
                self@ == after_prefix(base, insns, i as nat),
                forall|j: int| 0 <= j < i ==> !stops(bound, (#[trigger] insns[j]).address),
                bound == boundary(
                    old(self)@.targets,
                    old(self).image().min_insn_addr,
                    old(self).image().max_insn_addr,
                    target,
                ),
                forall|k: u64|
                    self@.instructions.contains_key(k) && !old(self)@.instructions.contains_key(k)
                        ==> !stops(bound, k),
                forall|k: u64|
                    self@.instructions.contains_key(k) && !old(self)@.instructions.contains_key(k)
                        ==> exists|j: int| 0 <= j < i && (#[trigger] run@[j]).address == k,
                self@.targets.contains(target),
            ensures
                i <= run.len(),
                i < run.len() ==> stops(bound, insns[i as int].address),
            decreases run.len() - i,
        {
            let insn = &run[i];
            assert(insn@ == insns[i as int]);
            if run_stops(bound, insn.address) {
                break;
            }
            let ghost before = self@;
            self.record(insn);
            proof {
                lemma_insn_grows(before, insn@);
                assert forall|k: u64|
                    self@.instructions.contains_key(k) && !old(self)@.instructions.contains_key(
                        k,
                    ) implies exists|j: int| 0 <= j < i + 1 && (#[trigger] run@[j]).address == k by {
                    if before.instructions.contains_key(k) {
                        let j = choose|j: int| 0 <= j < i && (#[trigger] run@[j]).address == k;
                        assert(0 <= j < i + 1 && run@[j].address == k);
                    } else {
                        assert(run@[i as int].address == k);
                    }
                }
            }
            i += 1;
        }
        proof {
            assert(is_cut(insns, bound, i as int));
            lemma_cut(insns, bound);
            lemma_cut_unique(insns, bound, i as int, crate::exploration::cut(insns, bound) as int);
        }
        i
    }

    /// Decodes the run that starts at `target`, up to the first instruction
    /// at or behind `bound`. `None` stands for an error of the engine. A
    /// run that the engine gives follows on from `target`.
    pub fn decode_run(&self, target: u64, bound: Option<u64>) -> (run: Option<Vec<DecodedInsn>>)
        ensures
            run matches Some(r) ==> run_view(r@) == taken(run_at(self.image().code, target), bound),
            run is Some ==> contiguous(run_at(self.image().code, target), target),
    {
        let code = self.image.bytes_from(target);
        self.taken_run(disasm_all(&self.engine, code, target), bound)
    }

    /// What a run with boundary `bound` takes of the engine's answer, as
    /// plain values: nothing for no answer, and for an answer the
    /// instructions that it holds, in order, up to the first one at or
    /// behind `bound`.
    fn taken_run(&self, answer: Option<capstone::Instructions<'_>>, bound: Option<u64>) -> (run: Option<
        Vec<DecodedInsn>,
    >)
        ensures
            match answer {
                Some(insns) => run matches Some(r) && run_view(r@) == taken(held(insns), bound),
                None => run is None,
            },
    {
        match answer {
            None => None,
            Some(insns) => {
                let ghost full = held(insns);
                let count = insn_count(&insns);
                let mut run: Vec<DecodedInsn> = Vec::new();
                let mut i: usize = 0;
                while i < count
                    invariant
                        full == held(insns),
                        count == full.len(),
                        i <= count,
                        run@.len() == i,
                        forall|j: int| 0 <= j < i ==> (#[trigger] run@[j])@ == full[j],
                        forall|j: int| 0 <= j < i ==> !stops(bound, (#[trigger] full[j]).address),
                    ensures
                        i <= count,
                        run@.len() == i,
                        forall|j: int| 0 <= j < i ==> (#[trigger] run@[j])@ == full[j],
                        forall|j: int| 0 <= j < i ==> !stops(bound, (#[trigger] full[j]).address),
                        i < count ==> stops(bound, full[i as int].address),
                    decreases count - i,
                {
                    let address = insn_address(&insns, i);
                    if run_stops(bound, address) {
                        break;
                    }
                    let insn = DecodedInsn {
                        address,
                        length: insn_length(&insns, i),
                        text: insn_text(&insns, i),
                        detail: insn_detail(&self.engine, &insns, i),
                    };
                    assert(insn@ == full[i as int]);
                    run.push(insn);
                    i += 1;
                }
                proof {
                    assert(is_cut(full, bound, i as int));
                    lemma_cut(full, bound);
                    lemma_cut_unique(full, bound, i as int, crate::exploration::cut(full, bound) as int);
                    assert(run_view(run@) =~= full.take(i as int));
                }
                Some(run)
            },
        }
    }

    /// One round: takes the next address off the worklist and, unless an
    /// instruction is decoded there already, decodes and visits it. Returns
    /// whether the engine answered; where it did not, the address is
    /// visited with an empty run. A round that has nothing decoded counts
    /// as answered. Every address that the round adds to the instruction
    /// map lies at or above the address that is visited and below the
    /// boundary of its run.
    pub fn step(&mut self) -> (answered: bool)
        requires
            old(self).wf(),
        ensures
            final(self).wf(),
            final(self).image() == old(self).image(),
            final(self).file_name() == old(self).file_name(),
            final(self)@ == round_answered(old(self).image(), old(self)@, answered),
            !asks(old(self)@) ==> answered,
            asks(old(self)@) ==> final(self)@.targets.contains(old(self)@.worklist.last()),
            forall|k: u64|
                final(self)@.instructions.contains_key(k) && !old(self)@.instructions.contains_key(k)
                    ==> old(self)@.worklist.last() <= k && !stops(
                    boundary(
                        old(self)@.targets,
                        old(self).image().min_insn_addr,
                        old(self).image().max_insn_addr,
                        old(self)@.worklist.last(),
                    ),
                    k,
                ),
            grows(old(self)@, final(self)@),
            sound(old(self).image(), old(self)@) ==> sound(final(self).image(), final(self)@),
            tidy(old(self)@) ==> tidy(final(self)@),
    {
        proof {
            let low = self.image().min_insn_addr;
            let high = self.image().max_insn_addr;
            let run = run_at(self.image().code, self@.worklist.last());
            lemma_round_grows(self@, low, high, run);
            lemma_round_grows(self@, low, high, Seq::empty());
            if sound(self.image(), self@) {
                lemma_round_sound(self.image(), self@, true);
                lemma_round_sound(self.image(), self@, false);
            }
            if tidy(self@) {
                lemma_round_tidy(self@, low, high, run);
                lemma_round_tidy(self@, low, high, Seq::empty());
            }
        }
        match self.pop_target() {
            None => true,
            Some(target) => {
                let ghost popped = self@;
                let bound = self.next_target(target);
                match self.decode_run(target, bound) {
                    Some(run) => {
                        proof {
                            lemma_after_run_taken(
                                Exploration {
                                    worklist: popped.worklist,
                                    targets: popped.targets.insert(target),
                                    instructions: popped.instructions,
                                },
                                run_at(self.image().code, target),
                                bound,
                            );
                        }
                        let consumed = self.visit(target, &run);
                        proof {
                            let full = run_at(self.image().code, target);
                            lemma_cut(full, bound);
                            assert forall|k: u64|
                                self@.instructions.contains_key(k) && !popped.instructions.contains_key(
                                    k,
                                ) implies target <= k by {
                                let j = choose|j: int|
                                    0 <= j < consumed && (#[trigger] run@[j]).address == k;
                                assert(run_view(run@)[j] == run@[j]@);
                                assert(run_view(run@)[j] == full[j]);
                                lemma_contiguous_from_base(full, target, j);
                            }
                        }
                        true
                    },
                    None => {
                        let run: Vec<DecodedInsn> = Vec::new();
                        assert(run_view(run@) =~= Seq::empty());
                        self.visit(target, &run);
                        false
                    },
                }
            },
        }
    }

    /// Explores the image: rounds follow one another until the worklist is
    /// empty. Returns whether the engine answered every time it was asked;
    /// then the state is the one that the rounds over the image lead to.
    /// Only a round that has an address decoded can count as unanswered,
    /// so an exploration that asks the engine nothing is complete. From a
    /// tidy state no address is decoded twice. Every record that is added
    /// lies at or above a target and below the end of the code region.
    pub fn disassemble(&mut self) -> (complete: bool)
        requires
            old(self).wf(),
        ensures
            final(self).wf(),
            final(self).image() == old(self).image(),
            final(self).file_name() == old(self).file_name(),
            final(self)@.worklist.len() == 0,
            exists|answers: Seq<bool>|
                final(self)@ == #[trigger] rounds_answered(old(self).image(), old(self)@, answers)
                    && complete == (forall|i: int| 0 <= i < answers.len() ==> answers[i])
                    && free_rounds_answered(old(self).image(), old(self)@, answers) && (tidy(
                    old(self)@,
                ) ==> asked(old(self).image(), old(self)@, answers).no_duplicates()),
            old(self)@.worklist.len() == 0 ==> complete,
            complete ==> is_outcome(old(self).image(), old(self)@, final(self)@),
            grows(old(self)@, final(self)@),
            below_end(final(self).image(), final(self)@),
            above_targets(old(self)@, final(self)@),
            sound(old(self).image(), old(self)@) ==> sound(final(self).image(), final(self)@),
    {
        let mut complete = true;
        let ghost mut answers: Seq<bool> = Seq::empty();
        while self.worklist.len() > 0
            invariant
                self.wf(),
                self.image() == old(self).image(),
                self.file_name() == old(self).file_name(),
                self@ == rounds_answered(old(self).image(), old(self)@, answers),
                complete == (forall|i: int| 0 <= i < answers.len() ==> answers[i]),
                free_rounds_answered(old(self).image(), old(self)@, answers),
                answers.len() == 0 || old(self)@.worklist.len() > 0,
                grows(old(self)@, self@),
                above_targets(old(self)@, self@),
                sound(old(self).image(), old(self)@) ==> sound(self.image(), self@),
            decreases address_space() - seen(self@).len(), self@.worklist.len(),
        {
            let ghost before = self@;
            proof {
                self.lemma_wf();
            }
            let answered = self.step();
            proof {
                lemma_round_progress(
                    before,
                    self.image().min_insn_addr,
                    self.image().max_insn_addr,
                    if answered {
                        run_at(self.image().code, before.worklist.last())
                    } else {
                        Seq::empty()
                    },
                );
                lemma_grows_transitive(old(self)@, before, self@);
                assert forall|k: u64| self@.instructions.contains_key(k) implies old(
                    self,
                )@.instructions.contains_key(k) || exists|t: u64|
                    self@.targets.contains(t) && t <= k by {
                    if before.instructions.contains_key(k) {
                        if !old(self)@.instructions.contains_key(k) {
                            let t = choose|t: u64| before.targets.contains(t) && t <= k;
                            assert(self@.targets.contains(t) && t <= k);
                        }
                    } else {
                        let t = before.worklist.last();
                        assert(self@.targets.contains(t) && t <= k);
                    }
                }
                let ghost longer = answers.push(answered);
                assert(longer.drop_last() =~= answers);
                assert(longer.last() == answered);
                assert forall|i: int| 0 <= i < longer.len() && !asks(
                    rounds_answered(old(self).image(), old(self)@, #[trigger] longer.take(i)),
                ) implies longer[i] by {
                    if i < answers.len() {
                        assert(longer.take(i) =~= answers.take(i));
                    } else {
                        assert(longer.take(i) =~= answers);
                    }
                }
                if complete && answered {
                    assert forall|i: int| 0 <= i < longer.len() implies longer[i] by {
                        if i < answers.len() {
                            assert(longer[i] == answers[i]);
                        }
                    }
                } else if !answered {
                    assert(!longer[answers.len() as int]);
                } else {
                    let i = choose|i: int| 0 <= i < answers.len() && !answers[i];
                    assert(!longer[i]);
                }
                answers = longer;
            }
            complete = complete && answered;
        }
        proof {
            if complete {
                lemma_rounds_all_answered(old(self).image(), old(self)@, answers);
            }
            if tidy(old(self)@) {
                lemma_asked_once(old(self).image(), old(self)@, answers);
            }
        }
        complete
    }

    /// The lines of the listing: one for each decoded address in ascending
    /// order, the rendered form where there is one and the bare address in
    /// hexadecimal where there is none.
    pub fn emit_instructions(&self) -> (lines: Vec<String>)
        requires
            self.wf(),
        ensures
            lines@.len() == self.listing_order().len(),
            forall|i: int|
                0 <= i < lines@.len() ==> (#[trigger] lines@[i])@ == line_of(
                    self.listing_order()[i],
                    self@.instructions[self.listing_order()[i]],
                ),
    {
        let mut lines: Vec<String> = Vec::new();
        let count = self.instructions.len();
        let mut i: usize = 0;
        while i < count
            invariant
                self.wf(),
                count == self.listing_order().len(),
                i <= count,
                lines@.len() == i,
                forall|j: int|
                    0 <= j < i ==> (#[trigger] lines@[j])@ == line_of(
                        self.listing_order()[j],
                        self@.instructions[self.listing_order()[j]],
                    ),
            decreases count - i,
        {
            let address = self.instructions.key_at(i);
            let record = self.instructions.value_at(i);
            let line = match &record.disasm {
                Some(form) => form.text.clone(),
                None => render_marker(address),
            };
            lines.push(line);
            i += 1;
        }
        lines
    }
}

} // verus!
