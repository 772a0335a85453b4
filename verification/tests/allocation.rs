//! Whole functions: what the allocator finds for them.
use regalloc2::func::{InstRange, MachineEnv};
use regalloc2::index::{Block, Inst};
use regalloc2::reg::{
    Allocation, Edit, Operand, OperandKind, OperandPolicy, OperandPos, PReg,
    ProgPoint, RegAllocError, RegClass, VReg,
};
use regalloc2::run::{run, Output};
use regalloc2::table::{BlockData, InstData, TableFunction};

fn v(n: usize) -> VReg {
    VReg::new(n, RegClass::Int)
}

fn p(n: usize) -> PReg {
    PReg::new(n, RegClass::Int)
}

fn def(n: usize, policy: OperandPolicy) -> Operand {
    Operand::new(v(n), policy, OperandKind::Def, OperandPos::After)
}

fn read(n: usize, policy: OperandPolicy) -> Operand {
    Operand::new(v(n), policy, OperandKind::Use, OperandPos::Before)
}

fn op(operands: Vec<Operand>) -> InstData {
    InstData {
        is_call: false,
        is_ret: false,
        is_branch: false,
        is_move: None,
        operands,
        clobbers: vec![],
    }
}

fn ret(operands: Vec<Operand>) -> InstData {
    InstData { is_ret: true, ..op(operands) }
}

fn branch(operands: Vec<Operand>) -> InstData {
    InstData { is_branch: true, ..op(operands) }
}

/// A machine whose first `n` registers of each class may be allocated; the last one is the
/// scratch register.
fn machine(n: usize) -> MachineEnv {
    let mut regs = vec![];
    for i in 0..32 {
        regs.push(PReg::new(i, RegClass::Int));
    }
    for i in 0..32 {
        regs.push(PReg::new(i, RegClass::Float));
    }
    MachineEnv {
        regs,
        regs_by_class: vec![
            (0..n).map(|i| PReg::new(i, RegClass::Int)).collect(),
            (0..n).map(|i| PReg::new(i, RegClass::Float)).collect(),
        ],
        scratch_by_class: vec![PReg::new(31, RegClass::Int), PReg::new(31, RegClass::Float)],
    }
}

/// A function of one block.
fn straight(insts: Vec<InstData>, vreg_count: usize) -> TableFunction {
    let n = insts.len();
    table(insts, vec![block(0, n, vec![], vec![], vec![])], vreg_count)
}

fn block(
    from: usize,
    to: usize,
    succs: Vec<usize>,
    preds: Vec<usize>,
    params: Vec<usize>,
) -> BlockData {
    BlockData {
        insns: InstRange { from: Inst::new(from), to: Inst::new(to) },
        succs: succs.into_iter().map(Block::new).collect(),
        preds: preds.into_iter().map(Block::new).collect(),
        params: params.into_iter().map(v).collect(),
    }
}

fn table(
    inst_table: Vec<InstData>,
    block_table: Vec<BlockData>,
    vreg_count: usize,
) -> TableFunction {
    TableFunction {
        inst_table,
        block_table,
        entry: Block::new(0),
        vreg_count,
        int_slots: 1,
        float_slots: 1,
        named_by_last: false,
    }
}

/// Allocate, after the function and the machine were checked.
fn allocate(func: &TableFunction, env: &MachineEnv) -> Result<Output, RegAllocError> {
    assert!(func.check_function());
    assert!(env.check_machine());
    assert!(func.check_registers(env));
    run(func, env)
}

fn alloc_of(out: &Output, inst: usize, slot: usize) -> Allocation {
    out.allocs[out.inst_alloc_offsets[inst] as usize + slot]
}

#[test]
fn one_value_gets_a_register() {
    let func = straight(
        vec![op(vec![def(0, OperandPolicy::Reg)]), ret(vec![read(0, OperandPolicy::Reg)])],
        1,
    );
    let out = allocate(&func, &machine(4)).unwrap();
    assert_eq!(out.num_spillslots, 0);
    assert_eq!(out.inst_alloc_offsets, vec![0, 1]);
    assert_eq!(out.edits.len(), 0);
    assert!(matches!(alloc_of(&out, 0, 0), Allocation::Reg(_)));
    assert_eq!(alloc_of(&out, 0, 0), alloc_of(&out, 1, 0));
}

/// More values at one time than registers: some go to the stack frame, and every edit is a move
/// between locations that differ.
#[test]
fn too_many_values_are_spilled() {
    let n = 6;
    let mut insts = vec![];
    for i in 0..n {
        insts.push(op(vec![def(i, OperandPolicy::Reg)]));
    }
    for i in 0..n {
        insts.push(op(vec![read(i, OperandPolicy::Reg)]));
    }
    insts.push(ret(vec![]));
    let func = straight(insts, n);
    let out = allocate(&func, &machine(3)).unwrap();
    assert!(out.num_spillslots > 0);
    for i in 0..2 * n {
        assert!(matches!(alloc_of(&out, i, 0), Allocation::Reg(_)));
    }
    for (_, edit) in &out.edits {
        match edit {
            Edit::Move { from, to } => assert_ne!(from, to),
            Edit::BlockParams { .. } => panic!("no block has parameters"),
        }
    }
}

/// A loop with a block parameter.
#[test]
fn block_parameters_are_located() {
    let insts = vec![
        op(vec![def(0, OperandPolicy::Reg)]),
        branch(vec![read(0, OperandPolicy::Any)]),
        op(vec![def(2, OperandPolicy::Reg), read(1, OperandPolicy::Reg)]),
        branch(vec![read(2, OperandPolicy::Any)]),
    ];
    let blocks =
        vec![block(0, 2, vec![1], vec![], vec![]), block(2, 4, vec![1], vec![0, 1], vec![1])];
    let func = table(insts, blocks, 3);
    let out = allocate(&func, &machine(4)).unwrap();
    let params: Vec<_> = out
        .edits
        .iter()
        .filter(|(_, e)| matches!(e, Edit::BlockParams { .. }))
        .collect();
    assert_eq!(params.len(), 1);
    assert_eq!(params[0].0, ProgPoint::before(Inst::new(2)));
}

/// A value that is wanted in two registers by one instruction is copied to the second one.
#[test]
fn one_value_in_two_fixed_registers() {
    let func = straight(
        vec![
            op(vec![def(0, OperandPolicy::Reg)]),
            op(vec![
                read(0, OperandPolicy::FixedReg(p(1))),
                read(0, OperandPolicy::FixedReg(p(2))),
            ]),
            ret(vec![]),
        ],
        1,
    );
    let out = allocate(&func, &machine(4)).unwrap();
    assert_eq!(alloc_of(&out, 1, 0), Allocation::reg(p(1)));
    let copies: Vec<_> = out
        .edits
        .iter()
        .filter(|(_, e)| {
            matches!(e, Edit::Move { from, to } if *from == Allocation::reg(p(1))
                && *to == Allocation::reg(p(2)))
        })
        .collect();
    assert_eq!(copies.len(), 1);
    assert_eq!(copies[0].0, ProgPoint::before(Inst::new(1)));
}

/// A value that is wanted in a register at once by an instruction that defines another one there
/// is moved away before.
#[test]
fn a_light_bundle_gives_way_to_a_fixed_one() {
    let func = straight(
        vec![
            op(vec![def(0, OperandPolicy::Reg)]),
            op(vec![def(1, OperandPolicy::FixedReg(p(0)))]),
            op(vec![def(2, OperandPolicy::FixedReg(p(1)))]),
            op(vec![
                read(0, OperandPolicy::Reg),
                read(1, OperandPolicy::Any),
                read(2, OperandPolicy::Any),
            ]),
            ret(vec![]),
        ],
        3,
    );
    let out = allocate(&func, &machine(3)).unwrap();
    assert_eq!(alloc_of(&out, 1, 0), Allocation::reg(p(0)));
    assert_eq!(alloc_of(&out, 2, 0), Allocation::reg(p(1)));
    assert_eq!(alloc_of(&out, 0, 0), Allocation::reg(p(2)));
}

/// An output that reuses an input is where the input is read.
#[test]
fn a_reused_input_is_copied_if_it_lives_on() {
    let func = straight(
        vec![
            op(vec![def(0, OperandPolicy::Reg)]),
            op(vec![read(0, OperandPolicy::Reg), def(1, OperandPolicy::Reuse(0))]),
            op(vec![read(0, OperandPolicy::Reg), read(1, OperandPolicy::Reg)]),
            ret(vec![]),
        ],
        2,
    );
    let out = allocate(&func, &machine(4)).unwrap();
    assert_eq!(alloc_of(&out, 1, 0), alloc_of(&out, 1, 1));
    assert_ne!(alloc_of(&out, 2, 0), alloc_of(&out, 2, 1));
    assert!(out
        .edits
        .iter()
        .any(|(at, e)| *at == ProgPoint::before(Inst::new(1))
            && matches!(e, Edit::Move { to, .. } if *to == alloc_of(&out, 1, 1))));
}

/// A value is not in a register that is clobbered while it lives.
#[test]
fn clobbers_are_respected() {
    let call = InstData { is_call: true, clobbers: vec![p(0), p(1), p(2)], ..op(vec![]) };
    let func = straight(
        vec![
            op(vec![def(0, OperandPolicy::Any)]),
            call,
            ret(vec![read(0, OperandPolicy::Any)]),
        ],
        1,
    );
    let out = allocate(&func, &machine(4)).unwrap();
    assert_eq!(alloc_of(&out, 2, 0), Allocation::reg(p(3)));
    let out = allocate(&func, &machine(3)).unwrap();
    assert!(matches!(alloc_of(&out, 2, 0), Allocation::Stack(_)));
    assert_eq!(out.num_spillslots, 1);
}

/// Many values that live at once and are wanted nowhere in particular, with slots of some words.
fn crowd(n: usize, slots: usize, named_by_last: bool) -> TableFunction {
    let mut insts = vec![];
    for i in 0..n {
        insts.push(op(vec![def(i, OperandPolicy::Any)]));
    }
    insts.push(ret((0..n).map(|i| read(i, OperandPolicy::Any)).collect()));
    TableFunction { int_slots: slots, named_by_last, ..straight(insts, n) }
}

fn slots_of(out: &Output, n: usize) -> Vec<u32> {
    let mut slots: Vec<u32> = (0..n)
        .filter_map(|i| match alloc_of(out, i, 0) {
            Allocation::Stack(s) => Some(s.index),
            _ => None,
        })
        .collect();
    slots.sort();
    slots
}

#[test]
fn slots_have_their_own_words() {
    let out = allocate(&crowd(5, 2, false), &machine(2)).unwrap();
    assert_eq!(slots_of(&out, 5), vec![0, 2, 4]);
    assert_eq!(out.num_spillslots, 6);
    let out = allocate(&crowd(5, 2, true), &machine(2)).unwrap();
    assert_eq!(slots_of(&out, 5), vec![1, 3, 5]);
    assert_eq!(out.num_spillslots, 6);
}

/// Values that do not live at once share a slot.
#[test]
fn slots_are_used_again() {
    let mut insts = vec![];
    for k in 0..2 {
        for i in 0..3 {
            insts.push(op(vec![def(3 * k + i, OperandPolicy::Any)]));
        }
        insts.push(op((0..3).map(|i| read(3 * k + i, OperandPolicy::Any)).collect()));
    }
    insts.push(ret(vec![]));
    let out = allocate(&straight(insts, 6), &machine(2)).unwrap();
    assert_eq!(out.num_spillslots, 1);
}

#[test]
fn a_slot_size_must_be_a_power_of_two() {
    let err = allocate(&crowd(4, 3, false), &machine(2)).unwrap_err();
    assert_eq!(err, RegAllocError::SlotSize(3));
}

#[test]
fn a_frame_can_be_too_large() {
    let err = allocate(&crowd(6, 1 << 24, false), &machine(2)).unwrap_err();
    assert_eq!(err, RegAllocError::TooLarge);
}

/// Two values cannot be in one register at once.
#[test]
fn demands_that_cannot_be_met() {
    let func = straight(
        vec![
            op(vec![def(0, OperandPolicy::Reg)]),
            op(vec![def(1, OperandPolicy::Reg)]),
            op(vec![
                read(0, OperandPolicy::FixedReg(p(1))),
                read(1, OperandPolicy::FixedReg(p(1))),
            ]),
            ret(vec![]),
        ],
        2,
    );
    let err = allocate(&func, &machine(4)).unwrap_err();
    assert_eq!(err, RegAllocError::NoConvergence);
}

#[test]
fn a_move_of_values_that_are_nowhere() {
    let copy = InstData { is_move: Some((v(0), v(1))), ..op(vec![]) };
    let func = straight(vec![copy, ret(vec![])], 2);
    assert!(matches!(
        allocate(&func, &machine(4)),
        Err(RegAllocError::NoLiveRange(_))
    ));
}

#[test]
fn a_move_can_share_a_register() {
    let copy = InstData {
        is_move: Some((v(0), v(1))),
        ..op(vec![read(0, OperandPolicy::Any), def(1, OperandPolicy::Any)])
    };
    let func = straight(
        vec![
            op(vec![def(0, OperandPolicy::Reg)]),
            copy,
            ret(vec![read(1, OperandPolicy::Reg)]),
        ],
        2,
    );
    let out = allocate(&func, &machine(4)).unwrap();
    assert_eq!(alloc_of(&out, 0, 0), alloc_of(&out, 2, 0));
    assert_eq!(out.edits.len(), 0);
}

/// A move on an edge that is neither the only way out nor the only way in.
#[test]
fn a_critical_edge_has_no_place_for_moves() {
    let insts = vec![
        op(vec![def(0, OperandPolicy::Reg)]),
        branch(vec![read(0, OperandPolicy::Any)]),
        op(vec![def(1, OperandPolicy::Reg)]),
        branch(vec![read(1, OperandPolicy::Any)]),
        ret(vec![read(2, OperandPolicy::FixedReg(p(3)))]),
    ];
    let blocks = vec![
        block(0, 2, vec![1, 2], vec![], vec![]),
        block(2, 4, vec![2], vec![0], vec![]),
        block(4, 5, vec![], vec![0, 1], vec![2]),
    ];
    let err = allocate(&table(insts, blocks, 3), &machine(4)).unwrap_err();
    assert_eq!(err, RegAllocError::CritEdge(Block::new(0), Block::new(2)));
}

/// A register that is two parameters at once.
#[test]
fn parameters_must_differ() {
    let insts = vec![
        op(vec![def(0, OperandPolicy::Reg)]),
        branch(vec![read(0, OperandPolicy::Any), read(0, OperandPolicy::Any)]),
        ret(vec![read(1, OperandPolicy::Any)]),
    ];
    let blocks =
        vec![block(0, 2, vec![1], vec![], vec![]), block(2, 3, vec![], vec![0], vec![1, 1])];
    let err = allocate(&table(insts, blocks, 2), &machine(4)).unwrap_err();
    assert_eq!(err, RegAllocError::BlockParams(Block::new(1)));
}

/// An instruction that reads a value and defines it anew.
#[test]
fn a_value_is_not_defined_where_it_is_last_read() {
    let func = straight(
        vec![
            op(vec![def(0, OperandPolicy::Reg)]),
            op(vec![read(0, OperandPolicy::Reg), def(0, OperandPolicy::Reg)]),
            ret(vec![]),
        ],
        1,
    );
    let err = allocate(&func, &machine(4)).unwrap_err();
    assert_eq!(err, RegAllocError::SSA(v(0), Inst::new(1)));
}

/// Operands of a block that cannot be reached have no location.
#[test]
fn blocks_that_cannot_be_reached_are_left_out() {
    let insts = vec![
        op(vec![def(0, OperandPolicy::Reg)]),
        ret(vec![read(0, OperandPolicy::Reg)]),
        op(vec![def(1, OperandPolicy::FixedReg(p(2)))]),
        ret(vec![read(1, OperandPolicy::Any)]),
    ];
    let blocks =
        vec![block(0, 2, vec![], vec![], vec![]), block(2, 4, vec![], vec![], vec![])];
    let out = allocate(&table(insts, blocks, 2), &machine(4)).unwrap();
    assert!(alloc_of(&out, 1, 0).as_reg().is_some());
    assert_eq!(alloc_of(&out, 2, 0), Allocation::none());
    assert_eq!(alloc_of(&out, 3, 0), Allocation::none());
}

#[test]
fn functions_and_machines_are_checked() {
    let good = straight(vec![op(vec![def(0, OperandPolicy::Reg)]), ret(vec![])], 1);
    assert!(good.check_function());
    let unknown = straight(vec![op(vec![def(1, OperandPolicy::Reg)]), ret(vec![])], 1);
    assert!(!unknown.check_function());
    let far = straight(vec![op(vec![def(0, OperandPolicy::FixedReg(p(3)))]), ret(vec![])], 1);
    let mut small = machine(2);
    small.regs.truncate(3);
    assert!(far.check_registers(&machine(2)));
    assert!(!far.check_registers(&small));
    assert!(machine(2).check_machine());
    let mut mixed = machine(2);
    mixed.regs.swap(0, 1);
    assert!(!mixed.check_machine());
}

#[test]
fn counts_are_kept() {
    let out = allocate(&crowd(5, 1, false), &machine(2)).unwrap();
    assert_eq!(out.stats.initial_liverange_count, 5);
    assert_eq!(out.stats.merged_bundle_count, 5);
    assert_eq!(out.stats.spill_bundle_count, 5);
    assert_eq!(out.stats.spill_bundle_reg_success, 2);
    assert_eq!(out.stats.edits_count, out.edits.len());
}

/// The locations that hold a value before instruction `to`, in code that runs straight through, if
/// only `start` holds it after instruction `from`.
fn holders(out: &Output, start: Allocation, from: usize, to: usize) -> Vec<Allocation> {
    let first = ProgPoint::after(Inst::new(from)).to_index();
    let last = ProgPoint::before(Inst::new(to)).to_index();
    let mut held = vec![start];
    for (pos, edit) in &out.edits {
        if pos.to_index() < first || pos.to_index() > last {
            continue;
        }
        if let Edit::Move { from, to } = edit {
            let has = held.contains(from);
            held.retain(|a| a != to);
            if has {
                held.push(*to);
            }
        }
    }
    held
}

/// A value that is wanted in one register after another is brought there.
#[test]
fn a_split_value_is_carried() {
    let func = straight(
        vec![
            op(vec![def(0, OperandPolicy::FixedReg(p(0)))]),
            op(vec![read(0, OperandPolicy::FixedReg(p(1)))]),
            ret(vec![read(0, OperandPolicy::FixedReg(p(2)))]),
        ],
        1,
    );
    let out = allocate(&func, &machine(4)).unwrap();
    let start = alloc_of(&out, 0, 0);
    assert_eq!(start, Allocation::reg(p(0)));
    assert_eq!(alloc_of(&out, 1, 0), Allocation::reg(p(1)));
    assert_eq!(alloc_of(&out, 2, 0), Allocation::reg(p(2)));
    assert!(holders(&out, start, 0, 1).contains(&Allocation::reg(p(1))));
    assert!(holders(&out, start, 0, 2).contains(&Allocation::reg(p(2))));
}

/// A value that is wanted in another register in the next block is brought there.
#[test]
fn a_value_is_carried_over_an_edge() {
    let insts = vec![
        op(vec![def(0, OperandPolicy::FixedReg(p(0)))]),
        branch(vec![]),
        op(vec![read(0, OperandPolicy::FixedReg(p(1)))]),
        ret(vec![]),
    ];
    let blocks =
        vec![block(0, 2, vec![1], vec![], vec![]), block(2, 4, vec![], vec![0], vec![])];
    let out = allocate(&table(insts, blocks, 1), &machine(4)).unwrap();
    let start = alloc_of(&out, 0, 0);
    assert_eq!(start, Allocation::reg(p(0)));
    assert_eq!(alloc_of(&out, 2, 0), Allocation::reg(p(1)));
    assert!(holders(&out, start, 0, 2).contains(&Allocation::reg(p(1))));
}

/// A block parameter gets the value that is handed to it.
#[test]
fn an_argument_is_carried_to_its_parameter() {
    let insts = vec![
        op(vec![def(0, OperandPolicy::FixedReg(p(0)))]),
        branch(vec![read(0, OperandPolicy::Any)]),
        op(vec![read(1, OperandPolicy::FixedReg(p(1)))]),
        ret(vec![]),
    ];
    let blocks =
        vec![block(0, 2, vec![1], vec![], vec![]), block(2, 4, vec![], vec![0], vec![1])];
    let out = allocate(&table(insts, blocks, 2), &machine(4)).unwrap();
    let start = alloc_of(&out, 0, 0);
    assert_eq!(start, Allocation::reg(p(0)));
    assert_eq!(alloc_of(&out, 2, 0), Allocation::reg(p(1)));
    assert!(holders(&out, start, 0, 2).contains(&Allocation::reg(p(1))));
}
