//! Runs of functions before and after allocation: every operand is read where its value is.
use regalloc2::func::{InstRange, MachineEnv};
use regalloc2::index::{Block, Inst};
use regalloc2::reg::{
    Allocation, Edit, Operand, OperandKind, OperandPolicy, OperandPos, PReg, ProgPoint,
    RegAllocError, RegClass, VReg,
};
use regalloc2::run::{run, Output};
use regalloc2::table::{BlockData, InstData, TableFunction};

/// A source of numbers that is the same in every run.
struct Numbers(u64);

impl Numbers {
    fn below(&mut self, n: usize) -> usize {
        self.0 = self.0.wrapping_mul(6364136223846793005).wrapping_add(1442695040888963407);
        ((self.0 >> 33) as usize) % n
    }
}

fn v(n: usize) -> VReg {
    VReg::new(n, RegClass::Int)
}

fn machine(n: usize) -> MachineEnv {
    let mut regs = vec![];
    for i in 0..32 {
        regs.push(PReg::new(i, RegClass::Int));
    }
    for i in 0..32 {
        regs.push(PReg::new(i, RegClass::Float));
    }
    MachineEnv {
        regs,
        regs_by_class: vec![
            (0..n).map(|i| PReg::new(i, RegClass::Int)).collect(),
            (0..n).map(|i| PReg::new(i, RegClass::Float)).collect(),
        ],
        scratch_by_class: vec![PReg::new(31, RegClass::Int), PReg::new(31, RegClass::Float)],
    }
}

/// Builds a function block by block. Every block but the last one ends with a branch.
struct Builder {
    insts: Vec<InstData>,
    blocks: Vec<BlockData>,
    vregs: usize,
    numbers: Numbers,
    regs: usize,
    fixed: bool,
}

impl Builder {
    fn new(seed: u64, regs: usize, fixed: bool) -> Builder {
        Builder {
            insts: vec![],
            blocks: vec![],
            vregs: 0,
            numbers: Numbers(seed),
            regs,
            fixed,
        }
    }

    fn fresh(&mut self) -> usize {
        self.vregs += 1;
        self.vregs - 1
    }

    fn inst(&mut self, operands: Vec<Operand>, is_branch: bool, is_ret: bool, clobbers: Vec<PReg>) {
        self.insts.push(InstData {
            is_call: !clobbers.is_empty(),
            is_ret,
            is_branch,
            is_move: None,
            operands,
            clobbers,
        });
    }

    /// Some instructions that read values of `live` and add to them.
    fn body(&mut self, live: &mut Vec<usize>, count: usize) {
        for _ in 0..count {
            let mut operands = vec![];
            let mut taken: Vec<usize> = vec![];
            let reads = if live.is_empty() { 0 } else { self.numbers.below(3) };
            for _ in 0..reads {
                let x = live[self.numbers.below(live.len())];
                if operands.iter().any(|o: &Operand| o.vreg().vreg() == x) {
                    continue;
                }
                let policy = match self.numbers.below(if self.fixed { 4 } else { 3 }) {
                    0 => OperandPolicy::Any,
                    3 => {
                        let k = self.numbers.below(self.regs);
                        if taken.contains(&k) {
                            OperandPolicy::Reg
                        } else {
                            taken.push(k);
                            OperandPolicy::FixedReg(PReg::new(k, RegClass::Int))
                        }
                    }
                    _ => OperandPolicy::Reg,
                };
                operands.push(Operand::new(v(x), policy, OperandKind::Use, OperandPos::Before));
            }
            let y = self.fresh();
            let reused = operands.iter().position(|o| o.policy() == OperandPolicy::Reg);
            let policy = match (self.numbers.below(if self.fixed { 5 } else { 4 }), reused) {
                (0, Some(k)) => OperandPolicy::Reuse(k),
                (1, _) => OperandPolicy::Any,
                (4, _) => {
                    let k = self.numbers.below(self.regs);
                    if taken.contains(&k) {
                        OperandPolicy::Reg
                    } else {
                        OperandPolicy::FixedReg(PReg::new(k, RegClass::Int))
                    }
                }
                _ => OperandPolicy::Reg,
            };
            operands.push(Operand::new(v(y), policy, OperandKind::Def, OperandPos::After));
            let clobbers = if taken.is_empty()
                && self.fixed
                && self.numbers.below(4) == 0
                && policy == OperandPolicy::Any
            {
                vec![PReg::new(0, RegClass::Int), PReg::new(1, RegClass::Int)]
            } else {
                vec![]
            };
            self.inst(operands, false, false, clobbers);
            live.push(y);
        }
    }

    fn branch(&mut self, args: &[usize]) {
        let operands = args
            .iter()
            .map(|&x| {
                Operand::new(v(x), OperandPolicy::Any, OperandKind::Use, OperandPos::Before)
            })
            .collect();
        self.inst(operands, true, false, vec![]);
    }

    fn block(&mut self, from: usize, succs: Vec<usize>, preds: Vec<usize>, params: Vec<usize>) {
        self.blocks.push(BlockData {
            insns: InstRange { from: Inst::new(from), to: Inst::new(self.insts.len()) },
            succs: succs.into_iter().map(Block::new).collect(),
            preds: preds.into_iter().map(Block::new).collect(),
            params: params.into_iter().map(v).collect(),
        });
    }

    fn pick(&mut self, live: &[usize]) -> usize {
        live[self.numbers.below(live.len())]
    }

    fn finish(self) -> TableFunction {
        TableFunction {
            inst_table: self.insts,
            block_table: self.blocks,
            entry: Block::new(0),
            vreg_count: self.vregs,
            int_slots: 1,
            float_slots: 1,
            named_by_last: false,
        }
    }
}

/// One block.
fn straight(seed: u64, regs: usize, fixed: bool, count: usize) -> TableFunction {
    let mut b = Builder::new(seed, regs, fixed);
    let mut live = vec![];
    b.body(&mut live, count);
    let x = b.pick(&live);
    b.inst(
        vec![Operand::new(v(x), OperandPolicy::Reg, OperandKind::Use, OperandPos::Before)],
        false,
        true,
        vec![],
    );
    b.block(0, vec![], vec![], vec![]);
    b.finish()
}

/// Two ways that meet again.
fn diamond(seed: u64, regs: usize, fixed: bool, count: usize) -> TableFunction {
    let mut b = Builder::new(seed, regs, fixed);
    let mut live = vec![];
    b.body(&mut live, count);
    b.branch(&[]);
    b.block(0, vec![1, 2], vec![], vec![]);
    let p = b.fresh();
    let q = b.fresh();
    for _ in 0..2 {
        let from = b.insts.len();
        let mut here = live.clone();
        b.body(&mut here, count);
        let args = [b.pick(&here), b.pick(&here)];
        b.branch(&args);
        b.block(from, vec![3], vec![0], vec![]);
    }
    let from = b.insts.len();
    live.push(p);
    live.push(q);
    b.body(&mut live, count);
    let x = b.pick(&live);
    b.inst(
        vec![Operand::new(v(x), OperandPolicy::Reg, OperandKind::Use, OperandPos::Before)],
        false,
        true,
        vec![],
    );
    b.block(from, vec![], vec![1, 2], vec![p, q]);
    b.finish()
}

/// A loop: the head hands over to the body or leaves.
fn looped(seed: u64, regs: usize, fixed: bool, count: usize) -> TableFunction {
    let mut b = Builder::new(seed, regs, fixed);
    let mut live = vec![];
    b.body(&mut live, count);
    let args = [b.pick(&live), b.pick(&live)];
    b.branch(&args);
    b.block(0, vec![1], vec![], vec![]);
    let p = b.fresh();
    let q = b.fresh();
    live.push(p);
    live.push(q);
    let from = b.insts.len();
    b.body(&mut live, count);
    b.branch(&[]);
    b.block(from, vec![2, 3], vec![0, 2], vec![p, q]);
    let from = b.insts.len();
    let mut here = live.clone();
    b.body(&mut here, count);
    let args = [b.pick(&here), b.pick(&here)];
    b.branch(&args);
    b.block(from, vec![1], vec![1], vec![]);
    let from = b.insts.len();
    b.body(&mut live, count);
    let x = b.pick(&live);
    b.inst(
        vec![Operand::new(v(x), OperandPolicy::Reg, OperandKind::Use, OperandPos::Before)],
        false,
        true,
        vec![],
    );
    b.block(from, vec![], vec![1], vec![]);
    b.finish()
}

/// What is in which location: the values are numbers that are given out at definitions.
struct State {
    values: Vec<usize>,
    places: Vec<(Allocation, usize)>,
    next: usize,
}

impl State {
    fn get(&self, a: Allocation) -> Option<usize> {
        self.places.iter().find(|(b, _)| *b == a).map(|(_, x)| *x)
    }

    fn clear(&mut self, a: Allocation) {
        self.places.retain(|(b, _)| *b != a);
    }

    fn set(&mut self, a: Allocation, x: usize) {
        self.clear(a);
        self.places.push((a, x));
    }

    fn edits(&mut self, out: &Output, point: ProgPoint) {
        for (pos, edit) in &out.edits {
            if *pos != point {
                continue;
            }
            match edit {
                Edit::Move { from, to } => match self.get(*from) {
                    Some(x) => self.set(*to, x),
                    None => self.clear(*to),
                },
                Edit::BlockParams { vregs, allocs } => {
                    for (x, a) in vregs.iter().zip(allocs.iter()) {
                        assert_eq!(self.get(*a), Some(self.values[x.vreg()]));
                    }
                }
            }
        }
    }
}

/// Run the function along one way, and look at every operand.
fn follow(func: &TableFunction, out: &Output, numbers: &mut Numbers, steps: usize) {
    let mut s = State { values: vec![0; func.vreg_count], places: vec![], next: 1 };
    let mut block = 0;
    for _ in 0..steps {
        let data = &func.block_table[block];
        for i in data.insns.from.index()..data.insns.to.index() {
            let inst = Inst::new(i);
            s.edits(out, ProgPoint::before(inst));
            let ops = &func.inst_table[i].operands;
            let first = out.inst_alloc_offsets[i] as usize;
            for (k, op) in ops.iter().enumerate() {
                let a = out.allocs[first + k];
                if op.kind() == OperandKind::Use {
                    let x = s.values[op.vreg().vreg()];
                    assert_eq!(s.get(a), Some(x), "inst {} operand {}", i, k);
                    match op.policy() {
                        OperandPolicy::FixedReg(p) => {
                            assert_eq!(s.get(Allocation::Reg(p)), Some(x))
                        }
                        OperandPolicy::Reg => assert!(a.as_reg().is_some()),
                        _ => {}
                    }
                }
            }
            for p in &func.inst_table[i].clobbers {
                s.clear(Allocation::Reg(*p));
            }
            for (k, op) in ops.iter().enumerate() {
                let a = out.allocs[first + k];
                if op.kind() == OperandKind::Def {
                    match op.policy() {
                        OperandPolicy::FixedReg(p) => assert_eq!(a, Allocation::Reg(p)),
                        OperandPolicy::Reg => assert!(a.as_reg().is_some()),
                        OperandPolicy::Reuse(j) => assert_eq!(a, out.allocs[first + j]),
                        OperandPolicy::Any => assert_ne!(a, Allocation::none()),
                    }
                    s.values[op.vreg().vreg()] = s.next;
                    s.set(a, s.next);
                    s.next += 1;
                }
            }
            s.edits(out, ProgPoint::after(inst));
        }
        if data.succs.is_empty() {
            return;
        }
        let taken = numbers.below(data.succs.len());
        let args: Vec<usize> = func.inst_table[data.insns.to.index() - 1]
            .operands
            .iter()
            .map(|o| s.values[o.vreg().vreg()])
            .collect();
        let mut k = 0;
        for (j, succ) in data.succs.iter().enumerate() {
            for param in &func.block_table[succ.index()].params {
                if j == taken {
                    s.values[param.vreg()] = args[k];
                }
                k += 1;
            }
        }
        block = data.succs[taken].index();
    }
}

fn allocate(func: &TableFunction, env: &MachineEnv) -> Result<Output, RegAllocError> {
    assert!(func.check_function());
    assert!(env.check_machine());
    assert!(func.check_registers(env));
    run(func, env)
}

/// Allocate, look at the order of the edits, and follow some ways.
fn examine(func: &TableFunction, regs: usize, seed: u64) -> Output {
    let out = match allocate(func, &machine(regs)) {
        Ok(out) => out,
        Err(e) => panic!("seed {}: {:?}", seed, e),
    };
    for pair in out.edits.windows(2) {
        assert!(pair[0].0.to_index() <= pair[1].0.to_index());
    }
    let mut numbers = Numbers(seed);
    for _ in 0..4 {
        follow(func, &out, &mut numbers, 12);
    }
    out
}

#[test]
fn straight_code_reads_its_values() {
    let mut spilled = 0;
    for seed in 0..60 {
        let out = examine(&straight(seed, 5, false, 24), 5, seed);
        spilled += out.num_spillslots;
    }
    assert!(spilled > 0);
}

#[test]
fn diamonds_read_their_values() {
    for seed in 0..60 {
        examine(&diamond(seed, 5, false, 8), 5, seed);
    }
}

#[test]
fn loops_read_their_values() {
    for seed in 0..60 {
        examine(&looped(seed, 5, false, 6), 5, seed);
    }
}

#[test]
fn fixed_registers_are_respected() {
    for seed in 0..60 {
        examine(&straight(seed, 6, true, 16), 6, seed);
        examine(&diamond(seed, 6, true, 6), 6, seed);
        examine(&looped(seed, 6, true, 5), 6, seed);
    }
}

/// Is operand `k` of the instruction reused by an output?
fn is_reused(ops: &[Operand], k: usize) -> bool {
    ops.iter().any(|o| o.policy() == OperandPolicy::Reuse(k))
}

#[test]
fn operands_are_where_they_demand_to_be() {
    for seed in 100..140 {
        let funcs =
            [straight(seed, 6, true, 12), diamond(seed, 6, true, 5), looped(seed, 6, true, 5)];
        for func in &funcs {
            let out = allocate(func, &machine(6)).unwrap();
            for (i, inst) in func.inst_table.iter().enumerate() {
                for (k, op) in inst.operands.iter().enumerate() {
                    let a = out.allocs[out.inst_alloc_offsets[i] as usize + k];
                    if is_reused(&inst.operands, k) {
                        continue;
                    }
                    match op.policy() {
                        OperandPolicy::FixedReg(p) => assert_eq!(a, Allocation::Reg(p)),
                        OperandPolicy::Any => assert_ne!(a, Allocation::none()),
                        _ => assert!(a.as_reg().is_some()),
                    }
                }
            }
        }
    }
}

fn reads(n: usize, policy: OperandPolicy) -> Operand {
    Operand::new(v(n), policy, OperandKind::Use, OperandPos::Before)
}

fn defines(n: usize, policy: OperandPolicy) -> Operand {
    Operand::new(v(n), policy, OperandKind::Def, OperandPos::After)
}

/// A loop whose head reads a value that comes from before it, and whose body overwrites every
/// register. The exit is the given successor of the head.
fn calling_loop(regs: usize, exit: usize) -> TableFunction {
    let mut b = Builder::new(0, regs, false);
    let x = b.fresh();
    b.inst(vec![defines(x, OperandPolicy::Reg)], false, false, vec![]);
    b.branch(&[]);
    b.block(0, vec![1], vec![], vec![]);
    b.inst(vec![reads(x, OperandPolicy::Reg)], false, false, vec![]);
    b.branch(&[]);
    b.block(2, if exit == 0 { vec![3, 2] } else { vec![2, 3] }, vec![0, 2], vec![]);
    let all = (0..regs).map(|i| PReg::new(i, RegClass::Int)).collect();
    b.inst(vec![], false, false, all);
    b.branch(&[]);
    b.block(4, vec![1], vec![1], vec![]);
    b.inst(vec![], false, true, vec![]);
    b.block(6, vec![], vec![1], vec![]);
    b.finish()
}

/// A value that is read in a loop lives through all of its blocks, whichever way out comes first.
#[test]
fn a_call_in_a_loop_leaves_the_value() {
    for regs in 1..4 {
        for exit in 0..2 {
            let func = calling_loop(regs, exit);
            for seed in 0..20 {
                let out = examine(&func, regs, seed);
                assert_eq!(out.num_spillslots, 1);
            }
        }
    }
}

/// A block that is its own successor is a loop too.
#[test]
fn a_call_in_a_loop_of_one_block_leaves_the_value() {
    for regs in 1..4 {
        let mut b = Builder::new(0, regs, false);
        let x = b.fresh();
        b.inst(vec![defines(x, OperandPolicy::Reg)], false, false, vec![]);
        b.branch(&[]);
        b.block(0, vec![1], vec![], vec![]);
        b.inst(vec![reads(x, OperandPolicy::Reg)], false, false, vec![]);
        let all = (0..regs).map(|i| PReg::new(i, RegClass::Int)).collect();
        b.inst(vec![], false, false, all);
        b.branch(&[]);
        b.block(2, vec![1], vec![0, 1], vec![]);
        let out = examine(&b.finish(), regs, 0);
        assert_eq!(out.num_spillslots, 1);
    }
}

/// The heavier of two values gets the one register there is.
#[test]
fn a_light_value_makes_room_for_a_heavy_one() {
    let mut b = Builder::new(0, 1, false);
    let x = b.fresh();
    let y = b.fresh();
    b.inst(vec![defines(x, OperandPolicy::Any)], false, false, vec![]);
    b.inst(vec![defines(y, OperandPolicy::Reg)], false, false, vec![]);
    b.inst(vec![reads(y, OperandPolicy::Reg)], false, false, vec![]);
    b.inst(vec![reads(x, OperandPolicy::Any)], false, true, vec![]);
    b.block(0, vec![], vec![], vec![]);
    let out = examine(&b.finish(), 1, 0);
    assert_eq!(out.allocs[1], Allocation::reg(PReg::new(0, RegClass::Int)));
    assert_eq!(out.allocs[2], Allocation::reg(PReg::new(0, RegClass::Int)));
    assert_eq!(out.num_spillslots, 1);
}

/// No value is kept in a scratch register.
#[test]
fn scratch_registers_are_left_free() {
    let scratch = Allocation::reg(PReg::new(31, RegClass::Int));
    for seed in 0..20 {
        for func in [straight(seed, 4, true, 16), looped(seed, 4, false, 6)] {
            let out = examine(&func, 4, seed);
            assert!(out.allocs.iter().all(|a| *a != scratch));
        }
    }
}

/// A value that goes round a loop through an instruction that reads it in one register and leaves the
/// next one in another: the two share an instruction and come apart there.
#[test]
fn a_value_changes_its_register_in_a_loop() {
    for regs in 2..5 {
        let mut b = Builder::new(0, regs, false);
        let x = b.fresh();
        let p = b.fresh();
        let y = b.fresh();
        let first = PReg::new(0, RegClass::Int);
        let second = PReg::new(1, RegClass::Int);
        b.inst(vec![defines(x, OperandPolicy::Reg)], false, false, vec![]);
        b.branch(&[x]);
        b.block(0, vec![1], vec![], vec![]);
        b.inst(
            vec![
                reads(p, OperandPolicy::FixedReg(first)),
                defines(y, OperandPolicy::FixedReg(second)),
            ],
            false,
            false,
            vec![],
        );
        b.branch(&[y]);
        b.block(2, vec![1], vec![0, 1], vec![p]);
        let out = examine(&b.finish(), regs, 0);
        assert_eq!(out.allocs[2], Allocation::reg(first));
        assert_eq!(out.allocs[3], Allocation::reg(second));
    }
}

/// An input that lives on is copied to the output that reuses it, and the other inputs are read where
/// they are.
#[test]
fn reused_inputs_are_copied_and_others_spared() {
    let mut b = Builder::new(0, 4, false);
    let x = b.fresh();
    let y = b.fresh();
    let z = b.fresh();
    b.inst(vec![defines(x, OperandPolicy::Reg)], false, false, vec![]);
    b.inst(vec![defines(y, OperandPolicy::Reg)], false, false, vec![]);
    b.inst(
        vec![
            reads(x, OperandPolicy::Reg),
            reads(y, OperandPolicy::Reg),
            defines(z, OperandPolicy::Reuse(0)),
        ],
        false,
        false,
        vec![],
    );
    b.inst(
        vec![
            reads(x, OperandPolicy::Reg),
            reads(y, OperandPolicy::Reg),
            reads(z, OperandPolicy::Reg),
        ],
        false,
        true,
        vec![],
    );
    b.block(0, vec![], vec![], vec![]);
    let out = examine(&b.finish(), 4, 0);
    assert_eq!(out.allocs[2], out.allocs[4]);
    assert_ne!(out.allocs[3], out.allocs[4]);
    let before = ProgPoint::before(Inst::new(2));
    assert!(out
        .edits
        .iter()
        .any(|(pos, e)| *pos == before
            && matches!(e, Edit::Move { to, .. } if *to == out.allocs[4])));
}
