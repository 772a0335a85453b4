//! What the search for a register finds.
use crate::assign::AllocState;
use crate::code_range::{lemma_first_overlap, RangeEntry};
use crate::data::{props_weight, Stats};
use crate::graph::GraphState;
use crate::liveness::Ctx;
use crate::probe::{alloc_try, find_conflicts, max_weight, range_key, TryResult};
use crate::process::{attempt, cheaper, evict_all, probe, probe_class, probe_reg, ProbeEnd};
use crate::reg::{Allocation, PReg, RegClass};
use crate::requirement::Requirement;
use crate::spill::{spill_one, spill_probe};
use vstd::prelude::*;

verus! {

/// Is no entry of register number `p` in the way of a live range of bundle `b`?
pub open spec fn is_clear(s: AllocState, b: u32, p: int) -> bool {
    forall|i: int, k: int|
        #![trigger s.g.in_bundle[b as int][i], s.pregs[p][k]]
        0 <= i < s.g.in_bundle[b as int].len() && 0 <= k < s.pregs[p].len() ==> ({
            let key = range_key(s.g, s.g.in_bundle[b as int][i]);
            s.pregs[p][k].0.to <= key.from || key.to <= s.pregs[p][k].0.from
        })
}

proof fn lemma_clear(g: GraphState, entries: Seq<RangeEntry>, list: Seq<u32>, i: int, found: Seq<u32>)
    requires
        0 <= i <= list.len(),
        forall|j: int, k: int|
            #![trigger list[j], entries[k]]
            0 <= j < list.len() && 0 <= k < entries.len() ==> ({
                let key = range_key(g, list[j]);
                entries[k].0.to <= key.from || key.to <= entries[k].0.from
            }),
    ensures
        find_conflicts(g, entries, list, i, found) == Some(found),
    decreases list.len() - i,
{
    if i < list.len() {
        let key = range_key(g, list[i]);
        lemma_first_overlap(entries, key, 0);
        lemma_clear(g, entries, list, i + 1, found);
    }
}

/// A register that nothing is in the way in is given to the bundle.
pub proof fn law_clear_taken(c: Ctx, s: AllocState, b: u32, p: int)
    requires
        is_clear(s, b, p),
        b < s.g.bundles.len(),
    ensures
        alloc_try(c, s, b, p).1 == TryResult::Allocated(Allocation::Reg(c.m.regs[p])),
        alloc_try(c, s, b, p).0.g.bundles[b as int].allocation == Allocation::Reg(c.m.regs[p]),
{
    lemma_clear(s.g, s.pregs[p], s.g.in_bundle[b as int], 0, Seq::empty());
}

/// Is a register that is clear for the bundle tried in a step from `i` on?
spec fn clear_from(
    c: Ctx,
    s: AllocState,
    b: u32,
    class: RegClass,
    hint: Option<PReg>,
    i: int,
    n: int,
) -> bool {
    exists|j: int|
        i <= j < n && (#[trigger] probe_reg(c, class, b, hint, j) matches Some(r) && is_clear(
            s,
            b,
            r.ix(),
        ))
}

proof fn lemma_clear_found(
    c: Ctx,
    s: AllocState,
    b: u32,
    class: RegClass,
    hint: Option<PReg>,
    i: int,
    n: int,
    best: Option<Seq<u32>>,
)
    requires
        clear_from(c, s, b, class, hint, i, n),
        b < s.g.bundles.len(),
    ensures
        probe_class(c, s, b, class, hint, i, n, best).1 is Done,
    decreases n - i,
{
    let j = choose|j: int|
        i <= j < n && (#[trigger] probe_reg(c, class, b, hint, j) matches Some(r) && is_clear(
            s,
            b,
            r.ix(),
        ));
    match probe_reg(c, class, b, hint, i) {
        None => {
            assert(clear_from(c, s, b, class, hint, i + 1, n));
            lemma_clear_found(c, s, b, class, hint, i + 1, n, best);
        },
        Some(preg) => {
            let s1 = AllocState {
                stats: Stats {
                    process_bundle_reg_probes_any:
                        s.stats.process_bundle_reg_probes_any.wrapping_add(1),
                    ..s.stats
                },
                ..s
            };
            let (t, r) = alloc_try(c, s1, b, preg.ix());
            if j == i {
                assert(is_clear(s1, b, preg.ix()));
                law_clear_taken(c, s1, b, preg.ix());
            } else if !(r is Allocated) {
                assert(t == s1);
                assert(is_clear(t, b, probe_reg(c, class, b, hint, j)->Some_0.ix()));
                assert(clear_from(c, t, b, class, hint, i + 1, n));
                match r {
                    TryResult::Conflict(found) => {
                        lemma_clear_found(
                            c,
                            t,
                            b,
                            class,
                            hint,
                            i + 1,
                            n,
                            cheaper(t.g, best, found),
                        );
                    },
                    _ => {
                        lemma_clear_found(c, t, b, class, hint, i + 1, n, best);
                    },
                }
            }
        },
    }
}

/// Counting round from any place comes to every place.
proof fn lemma_wraps(k: int, b: int, len: int) -> (j: int)
    requires
        0 <= k < len,
    ensures
        0 <= j < len,
        (j + b) % len == k,
{
    let j = (k - b) % len;
    assert((j + b) % len == k) by (nonlinear_arith)
        requires
            len > 0,
            0 <= k < len,
            j == (k - b) % len,
    {
        let q = (k - b) / len;
        vstd::arithmetic::div_mod::lemma_fundamental_div_mod(k - b, len);
        assert(j + b == k + len * (-q));
        vstd::arithmetic::div_mod::lemma_mod_multiples_vanish(-q, k, len);
        vstd::arithmetic::div_mod::lemma_small_mod(k as nat, len as nat);
    }
    assert(0 <= j < len) by (nonlinear_arith)
        requires
            len > 0,
            j == (k - b) % len,
    ;
    j
}

/// Every register of the class is tried.
proof fn lemma_all_tried(c: Ctx, class: RegClass, b: u32, hint: Option<PReg>, k: int) -> (i: int)
    requires
        0 <= k < c.m.regs_by_class[class.ix()].len(),
    ensures
        ({
            let regs = c.m.regs_by_class[class.ix()];
            let n = if hint is Some {
                regs.len() + 1
            } else {
                regs.len()
            };
            &&& 0 <= i < n
            &&& probe_reg(c, class, b, hint, i) == Some(regs[k])
        }),
{
    let regs = c.m.regs_by_class[class.ix()];
    let j = lemma_wraps(k, b as int, regs.len() as int);
    match hint {
        Some(h) => if h == regs[k] {
            0
        } else {
            j + 1
        },
        None => j,
    }
}

/// A bundle that needs a register of a class gets one if one of them is clear for it.
pub proof fn law_clear_found(c: Ctx, s: AllocState, b: u32, class: RegClass, hint: Option<PReg>, k: int)
    requires
        b < s.g.bundles.len(),
        0 <= k < c.m.regs_by_class[class.ix()].len(),
        is_clear(s, b, c.m.regs_by_class[class.ix()][k].ix()),
    ensures
        probe(c, s, b, Requirement::Register(class), hint).1 is Done,
{
    let n = c.m.regs_by_class[class.ix()].len() as int;
    let count = if hint is Some {
        n + 1
    } else {
        n
    };
    let i = lemma_all_tried(c, class, b, hint, k);
    assert(clear_from(c, s, b, class, hint, 0, count));
    lemma_clear_found(c, s, b, class, hint, 0, count, None);
}

/// The weight of a set of bundles is the greatest one of theirs.
pub proof fn law_greatest_weight(g: GraphState, bundles: Seq<u32>, n: int)
    requires
        0 <= n <= bundles.len(),
    ensures
        forall|i: int|
            0 <= i < n ==> props_weight(
                g.bundles[(#[trigger] bundles[i]) as int].spill_weight_and_props,
            ) <= max_weight(g, bundles, n),
        max_weight(g, bundles, n) == 0 || exists|i: int|
            0 <= i < n && max_weight(g, bundles, n) == props_weight(
                g.bundles[(#[trigger] bundles[i]) as int].spill_weight_and_props,
            ),
    decreases n,
{
    if n > 0 {
        law_greatest_weight(g, bundles, n - 1);
        let _ = bundles[n - 1];
    }
}

proof fn lemma_cheapest(
    c: Ctx,
    s: AllocState,
    b: u32,
    class: RegClass,
    hint: Option<PReg>,
    i: int,
    n: int,
    best: Option<Seq<u32>>,
    j: int,
    other: Seq<u32>,
)
    requires
        0 <= i,
        i <= j < n && (probe_reg(c, class, b, hint, j) matches Some(r) && alloc_try(
            c,
            s,
            b,
            r.ix(),
        ).1 == TryResult::Conflict(other)) || (best == Some(other)),
    ensures
        probe_class(c, s, b, class, hint, i, n, best).1 matches ProbeEnd::Conflicts(found)
            ==> max_weight(s.g, found, found.len() as int) <= max_weight(
            s.g,
            other,
            other.len() as int,
        ),
    decreases n - i,
{
    if i < n {
        match probe_reg(c, class, b, hint, i) {
            None => {
                lemma_cheapest(c, s, b, class, hint, i + 1, n, best, j, other);
            },
            Some(preg) => {
                let s1 = AllocState {
                    stats: Stats {
                        process_bundle_reg_probes_any:
                            s.stats.process_bundle_reg_probes_any.wrapping_add(1),
                        ..s.stats
                    },
                    ..s
                };
                let (t, r) = alloc_try(c, s1, b, preg.ix());
                match r {
                    TryResult::Allocated(_) => {},
                    TryResult::Conflict(found) => {
                        assert(t == s1);
                        let next = cheaper(t.g, best, found);
                        let a = next->Some_0;
                        if best == Some(other) || j == i {
                            lemma_cheapest(c, t, b, class, hint, i + 1, n, next, j, a);
                        } else {
                            lemma_cheapest(c, t, b, class, hint, i + 1, n, next, j, other);
                        }
                    },
                    TryResult::ConflictWithFixed => {
                        assert(t == s1);
                        lemma_cheapest(c, t, b, class, hint, i + 1, n, best, j, other);
                    },
                }
            },
        }
    }
}

/// Where a bundle gets no register of its class, the bundles that are found in the way weigh no more
/// than those in the way in any register of the class.
pub proof fn law_cheapest_found(
    c: Ctx,
    s: AllocState,
    b: u32,
    class: RegClass,
    hint: Option<PReg>,
    k: int,
    other: Seq<u32>,
)
    requires
        0 <= k < c.m.regs_by_class[class.ix()].len(),
        alloc_try(c, s, b, c.m.regs_by_class[class.ix()][k].ix()).1 == TryResult::Conflict(other),
    ensures
        probe(c, s, b, Requirement::Register(class), hint).1 matches ProbeEnd::Conflicts(found)
            ==> max_weight(s.g, found, found.len() as int) <= max_weight(
            s.g,
            other,
            other.len() as int,
        ),
{
    let n = c.m.regs_by_class[class.ix()].len() as int;
    let count = if hint is Some {
        n + 1
    } else {
        n
    };
    let i = lemma_all_tried(c, class, b, hint, k);
    lemma_cheapest(c, s, b, class, hint, 0, count, None, i, other);
}

/// Where one of the bundles that are found in the way weighs as much as the bundle that looks for a
/// register, or more, none of them loses its register.
pub proof fn law_heavier_not_evicted(
    c: Ctx,
    s: AllocState,
    b: u32,
    req: Requirement,
    hint: Option<PReg>,
    attempts: int,
    found: Seq<u32>,
    j: int,
)
    requires
        probe(c, s, b, req, hint).1 == ProbeEnd::Conflicts(found),
        0 <= j < found.len(),
        ({
            let bundles = probe(c, s, b, req, hint).0.g.bundles;
            props_weight(bundles[found[j] as int].spill_weight_and_props) >= props_weight(
                bundles[b as int].spill_weight_and_props,
            )
        }),
    ensures
        attempt(c, s, b, Some(req), hint, attempts) matches Ok(end) ==> end.s == probe(
            c,
            s,
            b,
            req,
            hint,
        ).0 && !end.done,
{
    law_greatest_weight(probe(c, s, b, req, hint).0.g, found, found.len() as int);
    let _ = found[j];
}

/// Where all bundles that are found in the way weigh less, the first attempt takes their registers
/// from them and tries again.
pub proof fn law_lighter_evicted(
    c: Ctx,
    s: AllocState,
    b: u32,
    req: Requirement,
    hint: Option<PReg>,
    found: Seq<u32>,
)
    requires
        1 < 100 * c.f.insts,
        probe(c, s, b, req, hint).1 == ProbeEnd::Conflicts(found),
        found.len() > 0,
        forall|j: int|
            0 <= j < found.len() ==> ({
                let bundles = probe(c, s, b, req, hint).0.g.bundles;
                props_weight(bundles[(#[trigger] found[j]) as int].spill_weight_and_props)
                    < props_weight(bundles[b as int].spill_weight_and_props)
            }),
    ensures
        exists|t: AllocState|
            t.g == probe(c, s, b, req, hint).0.g && t.pregs == probe(c, s, b, req, hint).0.pregs
                && attempt(c, s, b, Some(req), hint, 0) == attempt(
                c,
                #[trigger] evict_all(t, found, 0),
                b,
                Some(req),
                hint,
                1,
            ),
{
    let t = probe(c, s, b, req, hint).0;
    law_greatest_weight(t.g, found, found.len() as int);
    let _ = found[0];
    let u = AllocState {
        stats: Stats {
            evict_bundle_event: t.stats.evict_bundle_event.wrapping_add(1),
            ..t.stats
        },
        ..t
    };
    assert(attempt(c, s, b, Some(req), hint, 0) == attempt(
        c,
        evict_all(u, found, 0),
        b,
        Some(req),
        hint,
        1,
    ));
}

proof fn lemma_spill_found(c: Ctx, s: AllocState, b: u32, class: RegClass, i: int, j: int)
    requires
        b < s.g.bundles.len(),
        0 <= i <= j < c.m.regs_by_class[class.ix()].len(),
        ({
            let regs = c.m.regs_by_class[class.ix()];
            is_clear(s, b, regs[(j + b) % regs.len() as int].ix())
        }),
    ensures
        spill_probe(c, s, b, class, i).1,
        spill_probe(c, s, b, class, i).0.g.bundles[b as int].allocation is Reg,
    decreases j - i,
{
    let regs = c.m.regs_by_class[class.ix()];
    let p = regs[(i + b) % regs.len() as int].ix();
    if i == j {
        law_clear_taken(c, s, b, p);
    } else {
        let (t, r) = alloc_try(c, s, b, p);
        if !(r is Allocated) {
            assert(t == s);
            lemma_spill_found(c, t, b, class, i + 1, j);
        }
    }
}

/// A bundle that was put aside gets a register of its class after all if one of them is clear for it.
pub proof fn law_spilled_clear_found(c: Ctx, s: AllocState, b: u32, k: int)
    requires
        b < s.g.bundles.len(),
        ({
            let class = s.g.vregs[s.g.ranges[s.g.in_bundle[b as int][0] as int].vreg.ix()].reg.class;
            &&& 0 <= k < c.m.regs_by_class[class.ix()].len()
            &&& is_clear(s, b, c.m.regs_by_class[class.ix()][k].ix())
        }),
    ensures
        spill_one(c, s, b).g.bundles[b as int].allocation is Reg,
{
    let class = s.g.vregs[s.g.ranges[s.g.in_bundle[b as int][0] as int].vreg.ix()].reg.class;
    let s1 = AllocState {
        stats: Stats {
            spill_bundle_reg_probes: s.stats.spill_bundle_reg_probes.wrapping_add(1),
            ..s.stats
        },
        ..s
    };
    let regs = c.m.regs_by_class[class.ix()];
    let j = lemma_wraps(k, b as int, regs.len() as int);
    assert(is_clear(s1, b, regs[(j + b) % regs.len() as int].ix()));
    lemma_spill_found(c, s1, b, class, 0, j);
}

/// A bundle that needs a register gets the one that its spill set hints at if that is clear for it.
pub proof fn law_hint_first(c: Ctx, s: AllocState, b: u32, class: RegClass, h: PReg)
    requires
        b < s.g.bundles.len(),
        is_clear(s, b, h.ix()),
    ensures
        probe(c, s, b, Requirement::Register(class), Some(h)).1 is Done,
        probe(c, s, b, Requirement::Register(class), Some(h)).0.g.bundles[b as int].allocation
            == Allocation::Reg(c.m.regs[h.ix()]),
{
    let s1 = AllocState {
        stats: Stats {
            process_bundle_reg_probes_any: s.stats.process_bundle_reg_probes_any.wrapping_add(1),
            ..s.stats
        },
        ..s
    };
    assert(is_clear(s1, b, h.ix()));
    law_clear_taken(c, s1, b, h.ix());
    assert(probe_reg(c, class, b, Some(h), 0) == Some(h));
}

/// A bundle that needs a given register gets it if that is clear for it.
pub proof fn law_given_found(c: Ctx, s: AllocState, b: u32, p: PReg, hint: Option<PReg>)
    requires
        b < s.g.bundles.len(),
        is_clear(s, b, p.ix()),
    ensures
        probe(c, s, b, Requirement::Fixed(p), hint).1 is Done,
        probe(c, s, b, Requirement::Fixed(p), hint).0.g.bundles[b as int].allocation
            == Allocation::Reg(c.m.regs[p.ix()]),
{
    let s1 = AllocState {
        stats: Stats {
            process_bundle_reg_probes_fixed: s.stats.process_bundle_reg_probes_fixed.wrapping_add(
                1,
            ),
            ..s.stats
        },
        ..s
    };
    assert(is_clear(s1, b, p.ix()));
    law_clear_taken(c, s1, b, p.ix());
}

} // verus!
