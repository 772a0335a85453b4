//! The parts that the allocator is built from.
use regalloc2::bitvec::BitVec;
use regalloc2::code_range::{CodeRange, LiveRangeKey, LiveRangeSet};
use regalloc2::data::{
    spill_weight_from_policy, InsertMovePrio, InsertedMove, LiveBundle, LiveRange, LiveRangeFlag,
};
use regalloc2::halfmove::{half_move_key, HalfMove, HalfMoveKind};
use regalloc2::index::{
    Block, DefIndex, Inst, LiveBundleIndex, LiveRangeIndex, SpillSetIndex, VRegIndex,
};
use regalloc2::moves::ParallelMoves;
use regalloc2::queue::PrioQueue;
use regalloc2::reg::{
    Allocation, Operand, OperandKind, OperandPolicy, OperandPos, PReg, ProgPoint, RegAllocError,
    RegClass, SpillSlot, VReg,
};
use regalloc2::requirement::Requirement;
use regalloc2::sort::sort_by_key;
use std::cmp::Ordering;

fn at(i: u32) -> ProgPoint {
    ProgPoint::from_index(i)
}

fn range(from: u32, to: u32) -> CodeRange {
    CodeRange { from: at(from), to: at(to) }
}

fn reg(n: usize) -> Allocation {
    Allocation::reg(PReg::new(n, RegClass::Int))
}

#[test]
fn points_alternate() {
    assert_eq!(at(6), ProgPoint::before(Inst::new(3)));
    assert_eq!(at(7), ProgPoint::after(Inst::new(3)));
    assert_eq!(at(7).to_index(), 7);
    assert_eq!(at(6).next(), at(7));
    assert_eq!(at(7).next(), at(8));
    assert_eq!(at(8).prev(), at(7));
    assert!(at(6) < at(7) && at(7) < at(8));
}

#[test]
fn code_ranges() {
    let r = range(4, 9);
    assert!(!r.is_empty());
    assert!(range(4, 4).is_empty());
    assert!(r.contains(&range(4, 9)));
    assert!(r.contains(&range(5, 8)));
    assert!(!r.contains(&range(3, 8)));
    assert!(!r.contains(&range(5, 10)));
    assert!(r.contains_point(at(4)));
    assert!(r.contains_point(at(8)));
    assert!(!r.contains_point(at(9)));
    assert!(!r.contains_point(at(3)));
    assert!(r.overlaps(&range(8, 12)));
    assert!(!r.overlaps(&range(9, 12)));
    assert!(!r.overlaps(&range(0, 4)));
    assert!(r.overlaps(&range(0, 5)));
    assert_eq!(range(4, 9).len(), 2);
    assert_eq!(range(4, 5).len(), 0);
}

#[test]
fn ranges_that_meet_are_equal_in_order() {
    assert_eq!(range(0, 4).cmp(&range(4, 6)), Ordering::Less);
    assert_eq!(range(4, 6).cmp(&range(0, 4)), Ordering::Greater);
    assert_eq!(range(0, 5).cmp(&range(4, 6)), Ordering::Equal);
    assert_eq!(range(0, 4).partial_cmp(&range(4, 6)), Some(Ordering::Less));
    let a = LiveRangeKey::from_range(&range(0, 5));
    let b = LiveRangeKey::from_range(&range(4, 6));
    let c = LiveRangeKey::from_range(&range(6, 7));
    assert_eq!((a.from, a.to), (0, 5));
    assert!(a == b && b != c);
    assert_eq!(a.cmp(&c), Ordering::Less);
    assert_eq!(c.partial_cmp(&a), Some(Ordering::Greater));
}

#[test]
fn fixed_uses_and_flags_share_a_word() {
    let mut lr = LiveRange {
        range: range(0, 2),
        vreg: VRegIndex::invalid(),
        bundle: LiveBundleIndex::invalid(),
        uses_spill_weight: 0,
        num_fixed_uses_and_flags: 0,
        def: DefIndex::invalid(),
    };
    lr.set_flag(LiveRangeFlag::Fixed);
    lr.set_num_fixed_uses(5);
    lr.inc_num_fixed_uses();
    assert_eq!(lr.num_fixed_uses(), 6);
    assert!(lr.has_flag(LiveRangeFlag::Fixed));
    assert!(!lr.has_flag(LiveRangeFlag::Minimal));
    lr.set_flag(LiveRangeFlag::Minimal);
    lr.clear_flag(LiveRangeFlag::Fixed);
    lr.dec_num_fixed_uses();
    assert_eq!(lr.num_fixed_uses(), 5);
    assert!(!lr.has_flag(LiveRangeFlag::Fixed));
    assert!(lr.has_flag(LiveRangeFlag::Minimal));
    assert_eq!(lr.num_fixed_uses_and_flags, 0x100_0005);
}

#[test]
fn flags_leave_the_other_bits_alone() {
    let mut lr = LiveRange {
        range: range(0, 2),
        vreg: VRegIndex::invalid(),
        bundle: LiveBundleIndex::invalid(),
        uses_spill_weight: 0,
        num_fixed_uses_and_flags: 0x8400_0003,
        def: DefIndex::invalid(),
    };
    lr.set_flag(LiveRangeFlag::Minimal);
    assert_eq!(lr.num_fixed_uses_and_flags, 0x8500_0003);
    lr.set_flag(LiveRangeFlag::Fixed);
    assert_eq!(lr.num_fixed_uses_and_flags, 0x8700_0003);
    lr.clear_flag(LiveRangeFlag::Minimal);
    assert_eq!(lr.num_fixed_uses_and_flags, 0x8600_0003);
    lr.clear_flag(LiveRangeFlag::Fixed);
    assert_eq!(lr.num_fixed_uses_and_flags, 0x8400_0003);
}

#[test]
fn weight_and_properties_share_a_word() {
    let mut b = LiveBundle {
        spillset: SpillSetIndex::invalid(),
        allocation: Allocation::none(),
        prio: 0,
        spill_weight_and_props: 0,
    };
    b.set_cached_spill_weight_and_props(77, true, false);
    assert_eq!(b.spill_weight_and_props, 0x8000_004d);
    assert!(b.cached_minimal() && !b.cached_fixed());
    assert_eq!(b.cached_spill_weight(), 0x8000_0000);
    b.set_cached_spill_weight_and_props(5, false, true);
    assert!(!b.cached_minimal() && b.cached_fixed());
    assert_eq!(b.cached_spill_weight(), 0x4000_0000);
}

#[test]
fn weights_of_policies() {
    assert_eq!(spill_weight_from_policy(OperandPolicy::Any), 1000);
    assert_eq!(spill_weight_from_policy(OperandPolicy::Reg), 2000);
    let p = PReg::new(3, RegClass::Int);
    assert_eq!(spill_weight_from_policy(OperandPolicy::FixedReg(p)), 2000);
    assert_eq!(spill_weight_from_policy(OperandPolicy::Reuse(0)), 0);
}

#[test]
fn the_queue_hands_out_the_greatest_first() {
    let mut q = PrioQueue::new();
    q.insert(LiveBundleIndex::new(1), 10);
    q.insert(LiveBundleIndex::new(2), 30);
    q.insert(LiveBundleIndex::new(3), 20);
    q.insert(LiveBundleIndex::new(4), 30);
    assert_eq!(q.len(), 4);
    assert_eq!(q.pop(), Some(LiveBundleIndex::new(4)));
    assert_eq!(q.pop(), Some(LiveBundleIndex::new(2)));
    assert_eq!(q.pop(), Some(LiveBundleIndex::new(3)));
    assert_eq!(q.pop(), Some(LiveBundleIndex::new(1)));
    assert_eq!(q.pop(), None);
    assert!(q.is_empty());
}

#[test]
fn the_queue_takes_low_bits() {
    let mut q = PrioQueue::new();
    q.insert(LiveBundleIndex::new(1), 0x1_0000_0001);
    q.insert(LiveBundleIndex::new(2), 2);
    assert_eq!(q.pop(), Some(LiveBundleIndex::new(2)));
}

#[test]
fn range_sets_are_searched_by_overlap() {
    let mut s = LiveRangeSet::new();
    let a = LiveRangeKey { from: 4, to: 8 };
    let b = LiveRangeKey { from: 10, to: 12 };
    s.insert(b, LiveRangeIndex::new(2));
    s.insert(a, LiveRangeIndex::new(1));
    assert_eq!(s.get(&LiveRangeKey { from: 7, to: 11 }), Some(LiveRangeIndex::new(1)));
    assert_eq!(s.get(&LiveRangeKey { from: 8, to: 10 }), None);
    assert!(s.contains_key(&LiveRangeKey { from: 11, to: 20 }));
    assert!(!s.contains_key(&LiveRangeKey { from: 12, to: 20 }));
    s.remove(&a);
    assert_eq!(s.get(&LiveRangeKey { from: 7, to: 11 }), Some(LiveRangeIndex::new(2)));
    assert_eq!(s.get(&a), None);
}

#[test]
fn bit_sets() {
    let mut a = BitVec::new();
    a.set(3, true);
    a.set(70, true);
    a.set(3, false);
    a.set(200, false);
    assert!(!a.get(3) && a.get(70) && !a.get(1000));
    let mut b = BitVec::new();
    b.set(1, true);
    b.or(&a);
    assert!(b.get(1) && b.get(70) && !b.get(3));
}

#[test]
fn demands_merge() {
    let p = PReg::new(3, RegClass::Int);
    let q = PReg::new(4, RegClass::Int);
    let fixed = Requirement::Fixed(p);
    let some = Requirement::Register(RegClass::Int);
    let any = Requirement::Any(RegClass::Int);
    assert_eq!(any.merge(some), Some(some));
    assert_eq!(some.merge(any), Some(some));
    assert_eq!(some.merge(fixed), Some(fixed));
    assert_eq!(fixed.merge(any), Some(fixed));
    assert_eq!(fixed.merge(fixed), Some(fixed));
    assert_eq!(fixed.merge(Requirement::Fixed(q)), None);
    assert_eq!(some.merge(some), Some(some));
    assert_eq!(any.merge(Requirement::Any(RegClass::Float)), None);
    assert_eq!(fixed.class(), RegClass::Int);
    let v = VReg::new(7, RegClass::Float);
    let op = |policy| Operand::new(v, policy, OperandKind::Use, OperandPos::Before);
    assert_eq!(
        Requirement::from_operand(op(OperandPolicy::Any)),
        Requirement::Any(RegClass::Float)
    );
    assert_eq!(
        Requirement::from_operand(op(OperandPolicy::Reuse(1))),
        Requirement::Register(RegClass::Float)
    );
    assert_eq!(Requirement::from_operand(op(OperandPolicy::FixedReg(p))), fixed);
}

#[test]
fn half_moves_carry_their_edge() {
    let key = |kind| half_move_key(Block::new(5), Block::new(6), VRegIndex::new(9), kind).unwrap();
    let h = HalfMove { key: key(HalfMoveKind::Dest), alloc: reg(1) };
    assert_eq!(h.from_block(), Block::new(5));
    assert_eq!(h.to_block(), Block::new(6));
    assert_eq!(h.to_vreg(), VRegIndex::new(9));
    assert_eq!(h.kind(), HalfMoveKind::Dest);
    assert_eq!(key(HalfMoveKind::Source), (5u64 << 43) | (6 << 22) | (9 << 1));
    assert_eq!(key(HalfMoveKind::Source) + 1, key(HalfMoveKind::Dest));
    let far = half_move_key(
        Block::new(1 << 21),
        Block::new(0),
        VRegIndex::new(0),
        HalfMoveKind::Source,
    );
    assert_eq!(far, Err(RegAllocError::TooLarge));
}

#[test]
fn moves_sort_by_point_and_priority() {
    let m = |pos, prio, n| InsertedMove {
        pos: at(pos),
        prio,
        from_alloc: reg(n),
        to_alloc: reg(20),
    };
    let sorted = sort_by_key(vec![
        m(6, InsertMovePrio::Regular, 0),
        m(4, InsertMovePrio::OutEdgeMoves, 1),
        m(4, InsertMovePrio::InEdgeMoves, 2),
        m(6, InsertMovePrio::Regular, 3),
        m(4, InsertMovePrio::MultiFixedReg, 4),
    ]);
    let order: Vec<Allocation> = sorted.iter().map(|x| x.from_alloc).collect();
    assert_eq!(order, vec![reg(2), reg(4), reg(1), reg(0), reg(3)]);
}

/// Do the moves one at a time.
fn perform(moves: &[(Allocation, Allocation)], state: &mut Vec<(Allocation, u32)>) {
    for (from, to) in moves {
        let x = state.iter().find(|(a, _)| a == from).map(|(_, x)| *x);
        state.retain(|(a, _)| a != to);
        if let Some(x) = x {
            state.push((*to, x));
        }
    }
}

#[test]
fn a_cycle_goes_over_the_scratch_register() {
    let mut p = ParallelMoves::new(reg(31));
    p.add(reg(0), reg(1));
    p.add(reg(1), reg(2));
    p.add(reg(2), reg(0));
    p.add(reg(0), reg(5));
    let slot = Allocation::stack(SpillSlot::new(4, RegClass::Int));
    p.add(reg(2), slot);
    let mut state = vec![(reg(0), 100), (reg(1), 101), (reg(2), 102)];
    let moves = p.resolve();
    assert!(moves.iter().any(|(from, to)| *from == reg(31) || *to == reg(31)));
    perform(&moves, &mut state);
    for (a, x) in [(reg(1), 100), (reg(2), 101), (reg(0), 102), (reg(5), 100), (slot, 102)] {
        assert!(state.contains(&(a, x)));
    }
}

#[test]
fn a_chain_needs_no_scratch_register() {
    let mut p = ParallelMoves::new(reg(31));
    p.add(reg(0), reg(1));
    p.add(reg(1), reg(2));
    assert_eq!(p.resolve(), vec![(reg(1), reg(2)), (reg(0), reg(1))]);
}
