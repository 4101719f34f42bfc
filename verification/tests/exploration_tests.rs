use flow_disasm::disassembly::ConstructionError;
use flow_disasm::disassembly::Disassembly;
use flow_disasm::image::ImageLayout;
use flow_disasm::image::Section;
use flow_disasm::instruction::DecodedInsn;
use flow_disasm::instruction::Detail;
use flow_disasm::instruction::Operand;
use flow_disasm::instruction::GROUP_CALL;
use flow_disasm::instruction::GROUP_JUMP;

fn layout(entry_point: u64, low: u64, size: u64) -> ImageLayout {
    ImageLayout {
        entry_point,
        sections: vec![Section { name: Some(String::from(".text")), address: low, size }],
    }
}

fn fresh(entry_point: u64, low: u64, size: u64) -> Disassembly {
    Disassembly::with_layout(String::from("image"), vec![0u8; 0x100], &layout(entry_point, low, size))
        .unwrap()
}

fn plain(address: u64) -> DecodedInsn {
    DecodedInsn {
        address,
        length: 1,
        text: format!("insn at {}", address),
        detail: Some(Detail { groups: vec![], operands: vec![] }),
    }
}

fn branch(address: u64, group: u8, to: u64) -> DecodedInsn {
    DecodedInsn {
        address,
        length: 5,
        text: format!("branch at {}", address),
        detail: Some(Detail { groups: vec![group], operands: vec![Operand::Immediate(to as i64)] }),
    }
}

fn text_at(d: &Disassembly, address: u64) -> Option<String> {
    d.instruction(address).and_then(|r| r.disasm.as_ref().map(|f| f.text.clone()))
}

#[test]
fn new_seeds_worklist_and_targets_with_the_entry_point() {
    let d = fresh(0x40, 0x40, 0x20);
    assert_eq!(d.entry_point(), 0x40);
    assert_eq!(d.code_bounds(), (0x40, 0x60));
    assert_eq!(d.pending(), &vec![0x40]);
    assert!(d.is_target(0x40));
    assert!(!d.is_target(0x41));
    assert_eq!(d.instruction_count(), 0);
    assert!(!d.instruction_at(0x40));
    assert_eq!(d.file(), "image");
    assert!(d.emit_instructions().is_empty());
}

#[test]
fn new_refuses_a_code_section_beyond_the_address_space() {
    let made = Disassembly::with_layout(String::from("image"), vec![0xc3], &layout(0, u64::MAX, 2));
    assert!(matches!(made, Err(ConstructionError::MalformedImage)));
}

#[test]
fn new_accepts_a_layout_without_code_section() {
    let made = Disassembly::with_layout(
        String::from("image"),
        vec![0xc3],
        &ImageLayout { entry_point: 0, sections: vec![] },
    );
    let d = made.unwrap();
    assert_eq!(d.code_bounds(), (0, 0));
    assert_eq!(d.pending(), &vec![0]);
}

#[test]
fn next_target_is_the_end_of_the_region_without_a_target_above() {
    let d = fresh(0x40, 0x40, 0x20);
    assert_eq!(d.next_target(0x40), Some(0x60));
    assert_eq!(d.next_target(0x50), Some(0x60));
    assert_eq!(d.next_target(0x70), Some(0x60));
}

#[test]
fn next_target_is_the_least_target_above() {
    let mut d = fresh(0x40, 0x40, 0x20);
    d.visit(0x50, &vec![]);
    d.visit(0x58, &vec![]);
    assert_eq!(d.next_target(0x40), Some(0x50));
    assert_eq!(d.next_target(0x4f), Some(0x50));
    assert_eq!(d.next_target(0x50), Some(0x58));
    assert_eq!(d.next_target(0x58), Some(0x60));
    assert_eq!(d.next_target(0x10), Some(0x40));
}

#[test]
fn next_target_is_clipped_to_the_end_of_the_region() {
    let mut d = fresh(0x40, 0x40, 0x20);
    d.visit(0x80, &vec![]);
    assert!(d.is_target(0x80));
    assert_eq!(d.next_target(0x40), Some(0x60));
    assert_eq!(d.next_target(0x60), Some(0x60));
}

#[test]
fn region_without_extent_bounds_no_run() {
    let mut d = Disassembly::with_layout(
        String::from("image"),
        vec![0u8; 16],
        &ImageLayout { entry_point: 0, sections: vec![] },
    )
    .unwrap();
    d.visit(8, &vec![]);
    assert_eq!(d.next_target(0), None);
    assert_eq!(d.next_target(100), None);
    let consumed = d.visit(0, &vec![plain(0), plain(4), plain(8), plain(12), plain(1000)]);
    assert_eq!(consumed, 5);
    assert_eq!(d.instruction_count(), 5);
    assert!(d.instruction_at(1000));
}

#[test]
fn empty_code_section_stops_every_run_at_its_address() {
    let mut d = fresh(0x40, 0x40, 0);
    assert_eq!(d.code_bounds(), (0x40, 0x40));
    assert_eq!(d.next_target(0x40), Some(0x40));
    assert_eq!(d.next_target(0x80), Some(0x40));
    assert_eq!(d.next_target(0x10), Some(0x40));
    assert_eq!(d.visit(0x40, &vec![plain(0x40), plain(0x41)]), 0);
    assert_eq!(d.instruction_count(), 0);
    assert_eq!(d.visit(0x3e, &vec![plain(0x3e), plain(0x3f), plain(0x40)]), 2);
    assert!(d.instruction_at(0x3f));
    assert!(!d.instruction_at(0x40));
}

#[test]
fn empty_code_section_at_zero_is_an_image_without_code_section() {
    let mut d = fresh(0, 0, 0);
    assert_eq!(d.code_bounds(), (0, 0));
    assert_eq!(d.next_target(0), None);
    assert_eq!(d.visit(0, &vec![plain(0), plain(1)]), 2);
}

#[test]
fn target_below_the_end_of_an_empty_code_section_bounds_a_run() {
    let mut d = fresh(0x40, 0x40, 0);
    d.visit(0x20, &vec![]);
    assert_eq!(d.next_target(0x10), Some(0x20));
    assert_eq!(d.next_target(0x20), Some(0x40));
}

#[test]
fn pop_target_takes_the_last_address() {
    let mut d = fresh(0x40, 0x40, 0x20);
    d.visit(0x44, &vec![branch(0x44, GROUP_CALL, 0x50), branch(0x49, GROUP_CALL, 0x58)]);
    assert_eq!(d.pending(), &vec![0x40, 0x50, 0x58]);
    assert_eq!(d.pop_target(), Some(0x58));
    assert_eq!(d.pending(), &vec![0x40, 0x50]);
    assert_eq!(d.pop_target(), Some(0x50));
    assert_eq!(d.pop_target(), Some(0x40));
    assert!(d.pending().is_empty());
    assert_eq!(d.pop_target(), None);
    assert!(d.pending().is_empty());
}

#[test]
fn pop_target_hands_out_no_decoded_address() {
    let mut d = fresh(0x40, 0x40, 0x20);
    assert_eq!(d.pop_target(), Some(0x40));
    let mut e = fresh(0x40, 0x40, 0x20);
    e.visit(0x48, &vec![branch(0x48, GROUP_JUMP, 0x44)]);
    e.visit(0x41, &vec![plain(0x41), plain(0x42)]);
    assert_eq!(e.pending(), &vec![0x40, 0x44]);
    assert_eq!(e.pop_target(), Some(0x44));
    assert_eq!(e.pop_target(), Some(0x40));
    assert_eq!(e.pop_target(), None);
}

#[test]
fn visit_confirms_the_target_and_records_the_run() {
    let mut d = fresh(0x40, 0x40, 0x20);
    d.pop_target();
    let consumed = d.visit(0x40, &vec![plain(0x40), plain(0x41), plain(0x43)]);
    assert_eq!(consumed, 3);
    assert_eq!(d.instruction_count(), 3);
    assert_eq!(text_at(&d, 0x40), Some(String::from("insn at 64")));
    assert_eq!(text_at(&d, 0x41), Some(String::from("insn at 65")));
    assert_eq!(text_at(&d, 0x43), Some(String::from("insn at 67")));
    assert_eq!(text_at(&d, 0x42), None);
    assert_eq!(d.instruction(0x41).unwrap().disasm.as_ref().unwrap().length, 1);
    assert!(d.pending().is_empty());
}

#[test]
fn visit_of_an_empty_run_only_confirms_the_target() {
    let mut d = fresh(0x40, 0x40, 0x20);
    assert_eq!(d.visit(0x50, &vec![]), 0);
    assert!(d.is_target(0x50));
    assert!(!d.instruction_at(0x50));
    assert_eq!(d.instruction_count(), 0);
    assert_eq!(d.pending(), &vec![0x40]);
}

#[test]
fn run_stops_at_the_next_target() {
    let mut d = fresh(0x40, 0x40, 0x20);
    d.visit(0x50, &vec![plain(0x50)]);
    let consumed = d.visit(0x40, &vec![plain(0x40), plain(0x48), plain(0x50), plain(0x58)]);
    assert_eq!(consumed, 2);
    assert!(d.instruction_at(0x40));
    assert!(d.instruction_at(0x48));
    assert!(!d.instruction_at(0x58));
    assert_eq!(text_at(&d, 0x50), Some(String::from("insn at 80")));
    assert_eq!(d.instruction_count(), 3);
}

#[test]
fn run_stops_at_an_instruction_behind_the_boundary_too() {
    let mut d = fresh(0x40, 0x40, 0x20);
    d.visit(0x50, &vec![]);
    let consumed = d.visit(0x40, &vec![plain(0x40), plain(0x4e), plain(0x52), plain(0x44)]);
    assert_eq!(consumed, 2);
    assert!(!d.instruction_at(0x52));
    assert!(!d.instruction_at(0x44));
}

#[test]
fn run_stops_at_the_end_of_the_region() {
    let mut d = fresh(0x40, 0x40, 4);
    let run: Vec<DecodedInsn> = (0x40..0x48).map(plain).collect();
    assert_eq!(d.visit(0x40, &run), 4);
    assert_eq!(d.instruction_count(), 4);
    assert!(d.instruction_at(0x43));
    assert!(!d.instruction_at(0x44));
}

#[test]
fn run_from_behind_the_region_records_nothing() {
    let mut d = fresh(0x40, 0x40, 4);
    assert_eq!(d.visit(0x44, &vec![plain(0x44)]), 0);
    assert_eq!(d.visit(0x90, &vec![plain(0x90)]), 0);
    assert_eq!(d.instruction_count(), 0);
}

#[test]
fn boundary_is_taken_before_the_target_is_confirmed() {
    let mut d = fresh(0x40, 0x40, 0x20);
    d.visit(0x48, &vec![]);
    assert_eq!(d.visit(0x48, &vec![plain(0x48), plain(0x49)]), 2);
    assert_eq!(d.visit(0x44, &vec![plain(0x44), plain(0x48)]), 1);
}

#[test]
fn new_branch_target_joins_the_worklist() {
    let mut d = fresh(0x40, 0x40, 0x20);
    d.pop_target();
    d.visit(0x40, &vec![branch(0x40, GROUP_CALL, 0x50), plain(0x45)]);
    assert_eq!(d.pending(), &vec![0x50]);
    assert!(!d.is_target(0x50));
}

#[test]
fn known_target_is_not_queued() {
    let mut d = fresh(0x40, 0x40, 0x20);
    d.pop_target();
    d.visit(0x40, &vec![branch(0x40, GROUP_JUMP, 0x40)]);
    assert!(d.pending().is_empty());
    assert!(d.is_target(0x40));
}

#[test]
fn pending_target_is_not_queued_twice() {
    let mut d = fresh(0x40, 0x40, 0x20);
    d.pop_target();
    d.visit(
        0x40,
        &vec![
            branch(0x40, GROUP_CALL, 0x58),
            branch(0x45, GROUP_CALL, 0x58),
            branch(0x4a, GROUP_JUMP, 0x58),
        ],
    );
    assert_eq!(d.pending(), &vec![0x58]);
}

#[test]
fn decoded_branch_target_becomes_a_target_without_a_visit() {
    let mut d = fresh(0x40, 0x40, 0x20);
    d.pop_target();
    d.visit(0x40, &vec![plain(0x40), plain(0x41), branch(0x42, GROUP_CALL, 0x41), plain(0x47)]);
    assert!(d.pending().is_empty());
    assert!(d.is_target(0x41));
    assert_eq!(d.instruction_count(), 4);
    assert_eq!(text_at(&d, 0x41), Some(String::from("insn at 65")));
}

#[test]
fn branch_to_itself_becomes_a_target() {
    let mut d = fresh(0x40, 0x40, 0x20);
    d.pop_target();
    d.visit(0x40, &vec![plain(0x40), branch(0x41, GROUP_JUMP, 0x41)]);
    assert!(d.is_target(0x41));
    assert!(d.pending().is_empty());
}

#[test]
fn decoded_address_leaves_the_worklist() {
    let mut d = fresh(0x40, 0x40, 0x20);
    d.pop_target();
    d.visit(0x40, &vec![branch(0x40, GROUP_JUMP, 0x46), plain(0x45), plain(0x46)]);
    assert!(d.pending().is_empty());
    assert!(!d.is_target(0x46));
    assert!(d.instruction_at(0x46));
}

#[test]
fn last_pending_address_takes_the_place_of_the_one_that_leaves() {
    let mut d = fresh(0x40, 0x40, 0x40);
    d.pop_target();
    d.visit(
        0x40,
        &vec![
            branch(0x40, GROUP_CALL, 0x60),
            branch(0x45, GROUP_CALL, 0x68),
            branch(0x4a, GROUP_CALL, 0x70),
            branch(0x4f, GROUP_CALL, 0x78),
        ],
    );
    assert_eq!(d.pending(), &vec![0x60, 0x68, 0x70, 0x78]);
    d.visit(0x54, &vec![plain(0x54), plain(0x60)]);
    assert_eq!(d.pending(), &vec![0x78, 0x68, 0x70]);
    d.visit(0x70, &vec![plain(0x70)]);
    assert_eq!(d.pending(), &vec![0x78, 0x68]);
}

#[test]
fn branch_of_a_decoded_pending_address_is_still_followed() {
    let mut d = fresh(0x40, 0x40, 0x40);
    d.pop_target();
    d.visit(0x40, &vec![branch(0x40, GROUP_CALL, 0x45), branch(0x45, GROUP_CALL, 0x60)]);
    assert_eq!(d.pending(), &vec![0x60]);
}

#[test]
fn first_record_of_an_address_is_kept() {
    let mut d = fresh(0x40, 0x40, 0x40);
    d.visit(0x40, &vec![plain(0x40), plain(0x44)]);
    let mut other = plain(0x44);
    other.text = String::from("another reading");
    other.length = 3;
    d.visit(0x42, &vec![plain(0x42), other]);
    assert_eq!(text_at(&d, 0x44), Some(String::from("insn at 68")));
    assert_eq!(d.instruction(0x44).unwrap().disasm.as_ref().unwrap().length, 1);
    assert_eq!(d.instruction_count(), 3);
}

#[test]
fn listing_is_in_ascending_order_of_address() {
    let mut d = fresh(0x40, 0x10, 0x100);
    d.visit(0x80, &vec![plain(0x80), plain(0x81)]);
    d.visit(0x20, &vec![plain(0x20)]);
    d.visit(0x40, &vec![plain(0x40), plain(0x7f)]);
    assert_eq!(
        d.emit_instructions(),
        vec!["insn at 32", "insn at 64", "insn at 127", "insn at 128", "insn at 129"]
    );
}

#[test]
fn insn_target_of_the_disassembly_is_that_of_the_instruction() {
    let d = fresh(0x40, 0x40, 0x20);
    assert_eq!(d.insn_target(&branch(0x40, GROUP_JUMP, 0x1234)), Some(0x1234));
    assert_eq!(d.insn_target(&plain(0x40)), None);
}
