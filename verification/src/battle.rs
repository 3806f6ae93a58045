//! The battle engine: a last-one-standing elimination simulation.
//!
//! The whole simulation is specified as a pure function of the roster and the
//! generator seed: [`step`] is one attack, [`iter_steps`] runs the simulation
//! on a fuel budget, and [`battle_results`] is the ranking read off the unique
//! halted state.  The executable [`run_battle`] is proved to return exactly
//! that ranking.

use vstd::prelude::*;
use vstd::set_lib::set_int_range;

use crate::character::{char_ok, roster_ok, BattleResult, CharModel, Character, ResultModel};
use crate::rng::{lcg_next, lcg_pick, Lcg};

verus! {

/// The evolving state of one simulation: the roster, the indices of the
/// fallen in the order they fell, and the generator state.
pub struct SimState {
    pub chars: Seq<CharModel>,
    pub dead: Seq<int>,
    pub rng: u64,
}

/// The indices of the characters that are still alive, in increasing order.
pub open spec fn alive_seq(cs: Seq<CharModel>) -> Seq<int>
    decreases cs.len(),
{
    if cs.len() == 0 {
        Seq::empty()
    } else if cs.last().is_alive {
        alive_seq(cs.drop_last()) + seq![cs.len() - 1]
    } else {
        alive_seq(cs.drop_last())
    }
}

/// What an alive character still contributes to the fight.
pub open spec fn vit(c: CharModel) -> int {
    if c.is_alive {
        c.hp
    } else {
        0
    }
}

/// Total hit points of the living: strictly decreases on every attack, which
/// bounds the length of the simulation.
pub open spec fn vitality(cs: Seq<CharModel>) -> int
    decreases cs.len(),
{
    if cs.len() == 0 {
        0
    } else {
        vitality(cs.drop_last()) + vit(cs.last())
    }
}

/// The simulation stops once at most one character is alive.
pub open spec fn halted(st: SimState) -> bool {
    alive_seq(st.chars).len() <= 1
}

/// One attack: the generator picks an attacker among the living, then a
/// defender among the living other than the attacker, and the defender takes
/// the attacker's attack value in damage.  A defender whose hit points drop
/// to zero or below dies and its index joins the death order.
pub open spec fn step(st: SimState) -> SimState
    recommends
        !halted(st),
{
    let alive = alive_seq(st.chars);
    let m = alive.len() as int;
    let r1 = lcg_next(st.rng);
    let a = lcg_pick(r1, m);
    let r2 = lcg_next(r1);
    let d0 = lcg_pick(r2, m - 1);
    let ai = alive[a];
    let di = alive[if d0 < a {
        d0
    } else {
        d0 + 1
    }];
    let hp2 = st.chars[di].hp - st.chars[ai].atk;
    let dc = CharModel {
        name: st.chars[di].name,
        hp: hp2,
        atk: st.chars[di].atk,
        is_alive: hp2 > 0,
        is_client: st.chars[di].is_client,
    };
    SimState {
        chars: st.chars.update(di, dc),
        dead: if hp2 <= 0 {
            st.dead.push(di)
        } else {
            st.dead
        },
        rng: r2,
    }
}

/// Runs the simulation for at most `fuel` attacks, stopping early once
/// halted.
pub open spec fn iter_steps(st: SimState, fuel: nat) -> SimState
    decreases fuel,
{
    if fuel == 0 || halted(st) {
        st
    } else {
        iter_steps(step(st), (fuel - 1) as nat)
    }
}

/// The state a simulation of roster `cs` starts from under seed `seed`.
pub open spec fn init_state(cs: Seq<CharModel>, seed: u64) -> SimState {
    SimState { chars: cs, dead: Seq::empty(), rng: seed }
}

/// Some fuel budget on which the simulation halts (any two such budgets give
/// the same state, see [`lemma_battle_deterministic`]).
pub open spec fn halt_fuel(cs: Seq<CharModel>, seed: u64) -> nat {
    choose|f: nat| halted(#[trigger] iter_steps(init_state(cs, seed), f))
}

/// The halted state the simulation of `cs` under `seed` reaches.
pub open spec fn halt_state(cs: Seq<CharModel>, seed: u64) -> SimState {
    iter_steps(init_state(cs, seed), halt_fuel(cs, seed))
}

/// The death order of a halted state: the fallen in the order they fell,
/// then the survivors (at most one) in index order.
pub open spec fn death_order(st: SimState) -> Seq<int> {
    st.dead + alive_seq(st.chars)
}

/// The outcome record of one character at the given rank: rank 1 is the sole
/// winner.
pub open spec fn result_of(c: CharModel, rank: int) -> crate::character::ResultModel {
    crate::character::ResultModel {
        name: c.name,
        rank: rank,
        final_hp: c.hp,
        is_winner: rank == 1,
    }
}

/// The ranking read off a death order: the last to stand gets rank 1, and
/// ranks grow walking the death order backwards.
pub open spec fn ranked_results(cs: Seq<CharModel>, ord: Seq<int>) -> Seq<
    crate::character::ResultModel,
> {
    Seq::new(ord.len(), |k: int| result_of(cs[ord[ord.len() - 1 - k]], k + 1))
}

/// The full outcome of a battle: a pure function of the roster and the seed.
pub open spec fn battle_results(cs: Seq<CharModel>, seed: u64) -> Seq<
    crate::character::ResultModel,
> {
    let fs = halt_state(cs, seed);
    ranked_results(fs.chars, death_order(fs))
}

/// Everything one attack preserves, stated against the starting roster `cs0`:
/// names, attack values and human flags never change, hit points only fall,
/// the living have positive hit points, the fallen are recorded exactly once
/// each, and at least one character stays alive.
pub open spec fn sim_inv(cs0: Seq<CharModel>, st: SimState) -> bool {
    &&& st.chars.len() == cs0.len()
    &&& (forall|i: int|
        0 <= i < cs0.len() ==> {
            let c = #[trigger] st.chars[i];
            &&& c.name == cs0[i].name
            &&& c.atk == cs0[i].atk
            &&& c.is_client == cs0[i].is_client
            &&& c.hp <= cs0[i].hp
            &&& (c.is_alive ==> c.hp >= 1)
            &&& (!c.is_alive ==> c.hp <= 0)
        })
    &&& st.dead.no_duplicates()
    &&& (forall|k: int|
        0 <= k < st.dead.len() ==> 0 <= #[trigger] st.dead[k] < cs0.len() && !st.chars[st.dead[k]].is_alive)
    &&& (forall|i: int|
        0 <= i < cs0.len() && !(#[trigger] st.chars[i]).is_alive ==> st.dead.contains(i))
    &&& st.dead.len() + alive_seq(st.chars).len() == cs0.len()
    &&& (cs0.len() >= 1 ==> alive_seq(st.chars).len() >= 1)
}

/// The elements of `alive_seq` are exactly the indices of living characters,
/// listed in strictly increasing order.
pub proof fn lemma_alive_seq(cs: Seq<CharModel>)
    ensures
        forall|k: int|
            0 <= k < alive_seq(cs).len() ==> 0 <= #[trigger] alive_seq(cs)[k] < cs.len()
                && cs[alive_seq(cs)[k]].is_alive,
        forall|k1: int, k2: int|
            0 <= k1 < k2 < alive_seq(cs).len() ==> alive_seq(cs)[k1] < alive_seq(cs)[k2],
        forall|i: int| 0 <= i < cs.len() && cs[i].is_alive ==> alive_seq(cs).contains(i),
    decreases cs.len(),
{
    if cs.len() > 0 {
        let dl = cs.drop_last();
        lemma_alive_seq(dl);
        assert forall|i: int| 0 <= i < cs.len() && cs[i].is_alive implies alive_seq(cs).contains(
            i,
        ) by {
            if i < cs.len() - 1 {
                assert(dl[i] == cs[i]);
                assert(alive_seq(dl).contains(i));
                let k = choose|k: int| 0 <= k < alive_seq(dl).len() && alive_seq(dl)[k] == i;
                assert(alive_seq(cs)[k] == i);
            } else {
                assert(cs.last().is_alive);
                assert(alive_seq(cs).last() == i);
            }
        }
    }
}

/// Alive characters exist exactly while `alive_seq` is non-empty; a roster
/// where everyone is alive has a full `alive_seq`.
pub proof fn lemma_alive_seq_all(cs: Seq<CharModel>)
    requires
        forall|i: int| 0 <= i < cs.len() ==> (#[trigger] cs[i]).is_alive,
    ensures
        alive_seq(cs).len() == cs.len(),
    decreases cs.len(),
{
    if cs.len() > 0 {
        let dl = cs.drop_last();
        assert(forall|i: int| 0 <= i < dl.len() ==> (#[trigger] dl[i]) == cs[i]);
        lemma_alive_seq_all(dl);
    }
}

/// How updating one roster slot changes `alive_seq`: keeping the alive flag
/// keeps the whole sequence, and killing a living character shortens it by
/// one.
pub proof fn lemma_alive_seq_update(cs: Seq<CharModel>, j: int, c2: CharModel)
    requires
        0 <= j < cs.len(),
    ensures
        cs[j].is_alive == c2.is_alive ==> alive_seq(cs.update(j, c2)) == alive_seq(cs),
        cs[j].is_alive && !c2.is_alive ==> alive_seq(cs.update(j, c2)).len() == alive_seq(
            cs,
        ).len() - 1,
    decreases cs.len(),
{
    let up = cs.update(j, c2);
    if j == cs.len() - 1 {
        assert(up.drop_last() =~= cs.drop_last());
        assert(up.last() == c2);
        if cs[j].is_alive == c2.is_alive {
            assert(alive_seq(up) =~= alive_seq(cs));
        }
    } else {
        assert(up.drop_last() =~= cs.drop_last().update(j, c2));
        assert(up.last() == cs.last());
        lemma_alive_seq_update(cs.drop_last(), j, c2);
        if cs[j].is_alive == c2.is_alive {
            assert(alive_seq(up) =~= alive_seq(cs));
        }
    }
}

/// How updating one roster slot moves the total vitality.
pub proof fn lemma_vitality_update(cs: Seq<CharModel>, j: int, c2: CharModel)
    requires
        0 <= j < cs.len(),
    ensures
        vitality(cs.update(j, c2)) == vitality(cs) - vit(cs[j]) + vit(c2),
    decreases cs.len(),
{
    let up = cs.update(j, c2);
    if j == cs.len() - 1 {
        assert(up.drop_last() =~= cs.drop_last());
        assert(up.last() == c2);
    } else {
        assert(up.drop_last() =~= cs.drop_last().update(j, c2));
        assert(up.last() == cs.last());
        lemma_vitality_update(cs.drop_last(), j, c2);
    }
}

/// Vitality is never negative while the living have positive hit points.
pub proof fn lemma_vitality_nonneg(cs: Seq<CharModel>)
    requires
        forall|i: int| 0 <= i < cs.len() && (#[trigger] cs[i]).is_alive ==> cs[i].hp >= 0,
    ensures
        vitality(cs) >= 0,
    decreases cs.len(),
{
    if cs.len() > 0 {
        let dl = cs.drop_last();
        assert(forall|i: int| 0 <= i < dl.len() ==> (#[trigger] dl[i]) == cs[i]);
        lemma_vitality_nonneg(dl);
    }
}

/// The simulation invariant holds at the start of a battle over a
/// battle-ready roster.
pub proof fn lemma_init_inv(cs: Seq<CharModel>, seed: u64)
    requires
        roster_ok(cs),
    ensures
        sim_inv(cs, init_state(cs, seed)),
{
    assert(forall|i: int| 0 <= i < cs.len() ==> (#[trigger] cs[i]).is_alive) by {
        assert(forall|i: int| 0 <= i < cs.len() ==> char_ok(#[trigger] cs[i]));
    }
    lemma_alive_seq_all(cs);
}

/// One attack preserves the simulation invariant and strictly lowers the
/// total vitality.
pub proof fn lemma_step_preserves(cs0: Seq<CharModel>, st: SimState)
    requires
        roster_ok(cs0),
        sim_inv(cs0, st),
        !halted(st),
    ensures
        sim_inv(cs0, step(st)),
        vitality(step(st).chars) < vitality(st.chars),
{
    lemma_alive_seq(st.chars);
    let alive = alive_seq(st.chars);
    let m = alive.len() as int;
    let r1 = lcg_next(st.rng);
    let a = lcg_pick(r1, m);
    let r2 = lcg_next(r1);
    let d0 = lcg_pick(r2, m - 1);
    let ai = alive[a];
    let dpos: int = if d0 < a {
        d0
    } else {
        d0 + 1
    };
    let di = alive[dpos];
    assert(0 <= a < m);
    assert(0 <= dpos < m);
    assert(dpos != a);
    assert(ai != di);
    assert(st.chars[ai].is_alive && st.chars[di].is_alive);
    let hp2 = st.chars[di].hp - st.chars[ai].atk;
    let dc = CharModel {
        name: st.chars[di].name,
        hp: hp2,
        atk: st.chars[di].atk,
        is_alive: hp2 > 0,
        is_client: st.chars[di].is_client,
    };
    let st2 = step(st);
    assert(st2.chars == st.chars.update(di, dc));
    assert(st.chars[di].atk == cs0[di].atk && char_ok(cs0[di]));
    assert(st.chars[ai].atk == cs0[ai].atk && char_ok(cs0[ai]));
    assert(hp2 < st.chars[di].hp);
    lemma_vitality_update(st.chars, di, dc);
    assert(vit(dc) < vit(st.chars[di]));
    lemma_alive_seq_update(st.chars, di, dc);
    // the attacker survives the attack, so somebody is still alive
    assert(st2.chars[ai].is_alive);
    lemma_alive_seq(st2.chars);
    assert(alive_seq(st2.chars).contains(ai));
    assert(alive_seq(st2.chars).len() >= 1);
    if hp2 <= 0 {
        // the defender was alive, so it is not yet in the death order
        assert(!st.dead.contains(di)) by {
            if st.dead.contains(di) {
                let k = choose|k: int| 0 <= k < st.dead.len() && st.dead[k] == di;
                assert(!st.chars[di].is_alive);
            }
        }
        assert(st2.dead == st.dead.push(di));
        assert(st2.dead.no_duplicates()) by {
            assert(forall|k: int|
                0 <= k < st.dead.len() ==> #[trigger] st2.dead[k] == st.dead[k]);
            assert(st2.dead[st.dead.len() as int] == di);
        }
        assert(forall|i: int|
            0 <= i < cs0.len() && !(#[trigger] st2.chars[i]).is_alive ==> st2.dead.contains(i))
            by {
            assert forall|i: int|
                0 <= i < cs0.len() && !(#[trigger] st2.chars[i]).is_alive implies st2.dead.contains(
                i,
            ) by {
                if i == di {
                    assert(st2.dead[st.dead.len() as int] == di);
                } else {
                    assert(st.dead.contains(i));
                    let k = choose|k: int| 0 <= k < st.dead.len() && st.dead[k] == i;
                    assert(st2.dead[k] == i);
                }
            }
        }
    } else {
        assert(st2.dead == st.dead);
    }
}

/// The invariant carries through any number of attacks.
pub proof fn lemma_iter_inv(cs0: Seq<CharModel>, st: SimState, fuel: nat)
    requires
        roster_ok(cs0),
        sim_inv(cs0, st),
    ensures
        sim_inv(cs0, iter_steps(st, fuel)),
    decreases fuel,
{
    if fuel > 0 && !halted(st) {
        lemma_step_preserves(cs0, st);
        lemma_iter_inv(cs0, step(st), (fuel - 1) as nat);
    }
}

/// Whenever every attack value is positive, the simulation halts on some
/// finite fuel budget.
pub proof fn lemma_terminates(cs0: Seq<CharModel>, st: SimState)
    requires
        roster_ok(cs0),
        sim_inv(cs0, st),
    ensures
        exists|f: nat| halted(#[trigger] iter_steps(st, f)),
    decreases vitality(st.chars),
{
    if halted(st) {
        assert(halted(iter_steps(st, 0)));
    } else {
        lemma_step_preserves(cs0, st);
        lemma_vitality_nonneg(step(st).chars);
        lemma_terminates(cs0, step(st));
        let f = choose|f: nat| halted(#[trigger] iter_steps(step(st), f));
        assert(iter_steps(st, f + 1) == iter_steps(step(st), f));
        assert(halted(iter_steps(st, f + 1)));
    }
}

/// A halted simulation stays put however much more fuel it is given.
pub proof fn lemma_iter_stable(st: SimState, f: nat, g: nat)
    requires
        halted(iter_steps(st, f)),
        f <= g,
    ensures
        iter_steps(st, g) == iter_steps(st, f),
    decreases f,
{
    if halted(st) {
        assert(iter_steps(st, f) == st);
        assert(iter_steps(st, g) == st);
    } else {
        lemma_iter_stable(step(st), (f - 1) as nat, (g - 1) as nat);
    }
}

/// Determinism of the engine: every fuel budget on which the simulation of a
/// roster and seed halts yields the same final state, so the battle outcome
/// is a function of roster and seed alone.
pub proof fn lemma_battle_deterministic(cs: Seq<CharModel>, seed: u64, f1: nat, f2: nat)
    requires
        halted(iter_steps(init_state(cs, seed), f1)),
        halted(iter_steps(init_state(cs, seed), f2)),
    ensures
        iter_steps(init_state(cs, seed), f1) == iter_steps(init_state(cs, seed), f2),
{
    if f1 <= f2 {
        lemma_iter_stable(init_state(cs, seed), f1, f2);
    } else {
        lemma_iter_stable(init_state(cs, seed), f2, f1);
    }
}

/// The halted state of a battle over a battle-ready roster satisfies the
/// simulation invariant and is indeed halted.
pub proof fn lemma_halt_state(cs: Seq<CharModel>, seed: u64)
    requires
        roster_ok(cs),
    ensures
        sim_inv(cs, halt_state(cs, seed)),
        halted(halt_state(cs, seed)),
{
    lemma_init_inv(cs, seed);
    lemma_terminates(cs, init_state(cs, seed));
    let f = halt_fuel(cs, seed);
    assert(halted(iter_steps(init_state(cs, seed), f)));
    lemma_iter_inv(cs, init_state(cs, seed), f);
}

/// Running one more step of fuel applies [`step`] once to a state that has
/// not halted yet.
pub proof fn lemma_iter_unfold(st: SimState, fuel: nat)
    requires
        !halted(iter_steps(st, fuel)),
    ensures
        iter_steps(st, (fuel + 1) as nat) == step(iter_steps(st, fuel)),
    decreases fuel,
{
    if fuel == 0 {
        assert(iter_steps(st, 1) == iter_steps(step(st), 0));
        assert(iter_steps(step(st), 0) == step(st));
    } else if !halted(st) {
        lemma_iter_unfold(step(st), (fuel - 1) as nat);
    }
}

/// The shape of every battle outcome over a battle-ready roster of size `n`:
/// one result per roster entry, the result at position `k` carries rank
/// `k + 1`, the winner flag marks exactly the first position, the winner
/// keeps positive hit points, everybody else ends at zero or below, and every
/// result names a roster character.
pub proof fn lemma_battle_results_form(cs: Seq<CharModel>, seed: u64)
    requires
        roster_ok(cs),
    ensures
        battle_results(cs, seed).len() == cs.len(),
        forall|k: int|
            0 <= k < cs.len() ==> (#[trigger] battle_results(cs, seed)[k]).rank == k + 1,
        forall|k: int|
            0 <= k < cs.len() ==> ((#[trigger] battle_results(cs, seed)[k]).is_winner <==> k
                == 0),
        cs.len() >= 1 ==> battle_results(cs, seed)[0].final_hp >= 1,
        forall|k: int|
            1 <= k < cs.len() ==> (#[trigger] battle_results(cs, seed)[k]).final_hp <= 0,
        forall|k: int|
            0 <= k < cs.len() ==> exists|i: int|
                0 <= i < cs.len() && (#[trigger] battle_results(cs, seed)[k]).name == cs[i].name,
{
    lemma_halt_state(cs, seed);
    let fs = halt_state(cs, seed);
    lemma_alive_seq(fs.chars);
    let ord = death_order(fs);
    let n = cs.len() as int;
    assert(ord.len() == n);
    let rs = battle_results(cs, seed);
    assert(rs.len() == n);
    assert forall|k: int| 0 <= k < n implies 0 <= #[trigger] ord[k] < n by {
        if k < fs.dead.len() {
            assert(ord[k] == fs.dead[k]);
        } else {
            assert(ord[k] == alive_seq(fs.chars)[k - fs.dead.len()]);
        }
    }
    if n >= 1 {
        assert(alive_seq(fs.chars).len() == 1);
        assert(ord[n - 1] == alive_seq(fs.chars)[0]);
        assert(fs.chars[ord[n - 1]].is_alive);
        assert(rs[0] == result_of(fs.chars[ord[n - 1]], 1));
        assert(rs[0].final_hp >= 1);
        assert forall|k: int| 1 <= k < n implies (#[trigger] rs[k]).final_hp <= 0 by {
            assert(rs[k] == result_of(fs.chars[ord[n - 1 - k]], k + 1));
            assert(n - 1 - k < fs.dead.len());
            assert(ord[n - 1 - k] == fs.dead[n - 1 - k]);
            assert(!fs.chars[ord[n - 1 - k]].is_alive);
        }
    }
    assert forall|k: int| 0 <= k < n implies exists|i: int|
        0 <= i < cs.len() && (#[trigger] rs[k]).name == cs[i].name by {
        assert(rs[k] == result_of(fs.chars[ord[n - 1 - k]], k + 1));
        let i = ord[n - 1 - k];
        assert(fs.chars[i].name == cs[i].name);
        assert(rs[k].name == cs[i].name);
    }
}

/// The death order of a finished battle is a permutation of the roster
/// indices, so every roster character is ranked exactly once, and the result
/// at position `k` is the outcome record of the character ranked `k + 1`.
pub proof fn lemma_death_order_permutation(cs: Seq<CharModel>, seed: u64)
    requires
        roster_ok(cs),
    ensures
        death_order(halt_state(cs, seed)).len() == cs.len(),
        death_order(halt_state(cs, seed)).no_duplicates(),
        forall|k: int|
            0 <= k < cs.len() ==> 0 <= #[trigger] death_order(halt_state(cs, seed))[k] < cs.len(),
        forall|i: int| 0 <= i < cs.len() ==> death_order(halt_state(cs, seed)).contains(i),
        forall|k: int|
            0 <= k < cs.len() ==> #[trigger] battle_results(cs, seed)[k] == result_of(
                halt_state(cs, seed).chars[death_order(halt_state(cs, seed))[cs.len() - 1 - k]],
                k + 1,
            ),
{
    lemma_halt_state(cs, seed);
    let fs = halt_state(cs, seed);
    lemma_alive_seq(fs.chars);
    let alive = alive_seq(fs.chars);
    let ord = death_order(fs);
    let dl = fs.dead.len() as int;
    assert forall|k1: int, k2: int|
        0 <= k1 < ord.len() && 0 <= k2 < ord.len() && k1 != k2 implies ord[k1] != ord[k2] by {
        if k1 < dl && k2 < dl {
            assert(fs.dead[k1] != fs.dead[k2]);
        } else if k1 < dl && k2 >= dl {
            assert(!fs.chars[ord[k1]].is_alive && fs.chars[ord[k2]].is_alive);
        } else if k1 >= dl && k2 < dl {
            assert(fs.chars[ord[k1]].is_alive && !fs.chars[ord[k2]].is_alive);
        } else if k1 < k2 {
            assert(alive[k1 - dl] < alive[k2 - dl]);
        } else {
            assert(alive[k2 - dl] < alive[k1 - dl]);
        }
    }
    assert forall|i: int| 0 <= i < cs.len() implies ord.contains(i) by {
        if fs.chars[i].is_alive {
            assert(alive.contains(i));
            let k = choose|k: int| 0 <= k < alive.len() && alive[k] == i;
            assert(ord[dl + k] == i);
        } else {
            assert(fs.dead.contains(i));
            let k = choose|k: int| 0 <= k < fs.dead.len() && fs.dead[k] == i;
            assert(ord[k] == i);
        }
    }
}

/// Reading a sequence through a permutation of its indices keeps its
/// elements, with multiplicity.
pub proof fn lemma_reindex_multiset<A>(cs: Seq<A>, ord: Seq<int>)
    requires
        ord.no_duplicates(),
        ord.len() == cs.len(),
        forall|k: int| 0 <= k < ord.len() ==> 0 <= #[trigger] ord[k] < cs.len(),
        forall|i: int| 0 <= i < cs.len() ==> ord.contains(i),
    ensures
        Seq::new(ord.len(), |k: int| cs[ord[k]]).to_multiset() == cs.to_multiset(),
    decreases cs.len(), (if ord.len() > 0 && ord.last() == cs.len() - 1 {
        0int
    } else {
        1int
    }),
{
    broadcast use vstd::seq_lib::group_to_multiset_ensures;

    let n = cs.len() as int;
    let picked = Seq::new(ord.len(), |k: int| cs[ord[k]]);
    if n == 0 {
        assert(picked =~= Seq::<A>::empty());
        assert(picked.to_multiset() =~= cs.to_multiset());
    } else if ord.last() == n - 1 {
        let cs2 = cs.drop_last();
        let ord2 = ord.drop_last();
        assert(forall|k: int| 0 <= k < ord2.len() ==> #[trigger] ord2[k] == ord[k]);
        assert forall|k: int| 0 <= k < ord2.len() implies 0 <= #[trigger] ord2[k] < cs2.len() by {
            assert(ord2[k] != ord[n - 1]);
        }
        assert forall|i: int| 0 <= i < cs2.len() implies ord2.contains(i) by {
            assert(ord.contains(i));
            let k = choose|k: int| 0 <= k < ord.len() && ord[k] == i;
            assert(k != n - 1);
            assert(ord2[k] == i);
        }
        lemma_reindex_multiset(cs2, ord2);
        let picked2 = Seq::new(ord2.len(), |k: int| cs2[ord2[k]]);
        assert(picked.drop_last() =~= picked2);
        assert(picked =~= picked.drop_last().push(picked.last()));
        assert(cs =~= cs2.push(cs.last()));
        assert(picked.last() == cs.last());
        assert(picked.to_multiset() =~= cs.to_multiset());
    } else {
        // swap the position holding the greatest index into the last slot
        assert(ord.contains(n - 1));
        let p = choose|p: int| 0 <= p < ord.len() && ord[p] == n - 1;
        assert(p != n - 1);
        let ord2 = ord.update(p, ord[n - 1]).update(n - 1, n - 1);
        assert(ord2.no_duplicates()) by {
            assert(forall|k: int|
                0 <= k < n && k != p && k != n - 1 ==> #[trigger] ord2[k] == ord[k]);
            assert(ord2[p] == ord[n - 1] && ord2[n - 1] == ord[p]);
        }
        assert forall|i: int| 0 <= i < cs.len() implies ord2.contains(i) by {
            assert(ord.contains(i));
            let k = choose|k: int| 0 <= k < ord.len() && ord[k] == i;
            if k == p {
                assert(ord2[n - 1] == i);
            } else if k == n - 1 {
                assert(ord2[p] == i);
            } else {
                assert(ord2[k] == i);
            }
        }
        lemma_reindex_multiset(cs, ord2);
        let picked2 = Seq::new(ord2.len(), |k: int| cs[ord2[k]]);
        assert(picked2 =~= picked.update(p, picked[n - 1]).update(n - 1, picked[p]));
        assert(picked.update(p, picked[n - 1]).update(n - 1, picked[p]).to_multiset()
            =~= picked.to_multiset()) by {
            let u1 = picked.update(p, picked[n - 1]);
            assert(u1.to_multiset() == picked.to_multiset().insert(picked[n - 1]).remove(
                picked[p],
            ));
            assert(u1[n - 1] == picked[n - 1]);
            assert(u1.update(n - 1, picked[p]).to_multiset() == u1.to_multiset().insert(
                picked[p],
            ).remove(u1[n - 1]));
            assert(picked.contains(picked[p]));
            assert(picked.to_multiset().count(picked[p]) > 0);
            assert(u1.to_multiset().insert(picked[p]).remove(picked[n - 1])
                =~= picked.to_multiset());
        }
        assert(picked.to_multiset() =~= cs.to_multiset());
    }
}

/// A battle conserves the cast: the outcome records carry exactly the
/// roster's names, with multiplicity.
#[verifier::rlimit(50)]
pub proof fn lemma_names_conserved(cs: Seq<CharModel>, seed: u64)
    requires
        roster_ok(cs),
    ensures
        battle_results(cs, seed).map_values(|r: ResultModel| r.name).to_multiset()
            == cs.map_values(|c: CharModel| c.name).to_multiset(),
{
    lemma_halt_state(cs, seed);
    lemma_death_order_permutation(cs, seed);
    let fs = halt_state(cs, seed);
    let ord = death_order(fs);
    let n = cs.len() as int;
    let rord = ord.reverse();
    assert(rord.no_duplicates()) by {
        assert(forall|k: int| 0 <= k < n ==> #[trigger] rord[k] == ord[n - 1 - k]);
    }
    assert forall|i: int| 0 <= i < n implies rord.contains(i) by {
        assert(ord.contains(i));
        let k = choose|k: int| 0 <= k < ord.len() && ord[k] == i;
        assert(rord.len() == n);
        assert(rord[n - 1 - k] == ord[k]);
    }
    let names = cs.map_values(|c: CharModel| c.name);
    lemma_reindex_multiset(names, rord);
    let picked = Seq::new(rord.len(), |k: int| names[rord[k]]);
    let rnames = battle_results(cs, seed).map_values(|r: ResultModel| r.name);
    assert forall|k: int| 0 <= k < n implies #[trigger] rnames[k] == picked[k] by {
        assert(battle_results(cs, seed)[k] == result_of(fs.chars[ord[n - 1 - k]], k + 1));
        assert(fs.chars[ord[n - 1 - k]].name == cs[ord[n - 1 - k]].name);
        assert(picked[k] == names[ord[n - 1 - k]]);
    }
    assert(rnames =~= picked);
}

/// The produced ranks of a battle over a roster of size `n` form exactly the
/// set `{1, ..., n}`: no duplicates, no gaps.
pub proof fn lemma_ranks_dense(cs: Seq<CharModel>, seed: u64)
    requires
        roster_ok(cs),
    ensures
        battle_results(cs, seed).map_values(|r: ResultModel| r.rank).to_set() == set_int_range(
            1,
            cs.len() as int + 1,
        ),
        battle_results(cs, seed).map_values(|r: ResultModel| r.rank).no_duplicates(),
{
    lemma_battle_results_form(cs, seed);
    let rs = battle_results(cs, seed);
    let ranks = rs.map_values(|r: ResultModel| r.rank);
    let n = cs.len() as int;
    assert(ranks.len() == n);
    assert(forall|k: int| 0 <= k < n ==> #[trigger] ranks[k] == k + 1);
    assert forall|x: int| ranks.to_set().contains(x) implies set_int_range(1, n + 1).contains(
        x,
    ) by {
        let k = choose|k: int| 0 <= k < ranks.len() && ranks[k] == x;
        assert(1 <= x <= n);
    }
    assert forall|x: int| set_int_range(1, n + 1).contains(x) implies ranks.to_set().contains(
        x,
    ) by {
        assert(ranks[x - 1] == x);
        assert(ranks.contains(x));
    }
    assert(ranks.to_set() =~= set_int_range(1, n + 1));
}

/// Exactly one result of a battle carries rank 1 and the winner flag: the
/// one at position 0.
pub proof fn lemma_unique_winner(cs: Seq<CharModel>, seed: u64)
    requires
        roster_ok(cs),
        cs.len() >= 1,
    ensures
        battle_results(cs, seed)[0].rank == 1,
        battle_results(cs, seed)[0].is_winner,
        forall|k: int|
            1 <= k < cs.len() ==> !(#[trigger] battle_results(cs, seed)[k]).is_winner
                && battle_results(cs, seed)[k].rank != 1,
{
    lemma_battle_results_form(cs, seed);
}

/// The indices a `Vec<usize>` holds, as unbounded integers.
pub open spec fn to_ints(s: Seq<usize>) -> Seq<int> {
    s.map_values(|u: usize| u as int)
}

/// Hands out two exclusive references into distinct slots of a slice.  The
/// two indices are required to differ, so the references can never overlap.
pub fn two_mut<T>(slice: &mut [T], i: usize, j: usize) -> (r: (&mut T, &mut T))
    requires
        i != j,
        i < old(slice).len(),
        j < old(slice).len(),
    ensures
        *r.0 == old(slice)[i as int],
        *r.1 == old(slice)[j as int],
        final(slice)@ =~= old(slice)@.update(i as int, *final(r.0)).update(
            j as int,
            *final(r.1),
        ),
{
    if i < j {
        let (left, right) = slice.split_at_mut(j);
        let (_, mid) = left.split_at_mut(i);
        let a = mid.first_mut().unwrap();
        let b = right.first_mut().unwrap();
        (a, b)
    } else {
        let (left, right) = slice.split_at_mut(i);
        let (_, mid) = left.split_at_mut(j);
        let b = mid.first_mut().unwrap();
        let a = right.first_mut().unwrap();
        (a, b)
    }
}

/// Collects the indices of the characters that are still alive, in
/// increasing order.
fn alive_indices(chars: &Vec<Character>) -> (v: Vec<usize>)
    ensures
        to_ints(v@) == alive_seq(chars.deep_view()),
        v@.len() <= chars@.len(),
{
    let ghost cs = chars.deep_view();
    let n = chars.len();
    let mut v: Vec<usize> = Vec::new();
    let mut i: usize = 0;
    proof {
        assert(cs.take(0) =~= Seq::<CharModel>::empty());
        assert(to_ints(v@) =~= alive_seq(cs.take(0)));
    }
    while i < n
        invariant
            i <= n,
            n == chars@.len(),
            cs == chars.deep_view(),
            to_ints(v@) == alive_seq(cs.take(i as int)),
            v@.len() <= i,
        decreases n - i,
    {
        proof {
            assert(cs.take(i as int + 1).drop_last() =~= cs.take(i as int));
            assert(cs.take(i as int + 1).last() == cs[i as int]);
        }
        let c = &chars[i];
        if c.is_alive {
            v.push(i);
        }
        proof {
            assert(to_ints(v@) =~= alive_seq(cs.take(i as int + 1)));
        }
        i = i + 1;
    }
    proof {
        assert(cs.take(n as int) =~= cs);
    }
    v
}

/// Runs a whole battle over the given roster, seeded by `seed`: the outcome
/// is exactly the mathematical [`battle_results`] of roster and seed, so a
/// run can be reproduced from its seed.
pub fn run_battle(roster: Vec<Character>, seed: u64) -> (results: Vec<BattleResult>)
    requires
        roster_ok(roster.deep_view()),
    ensures
        results.deep_view() == battle_results(roster.deep_view(), seed),
{
    let ghost cs0 = roster.deep_view();
    let ghost st0 = init_state(cs0, seed);
    let mut chars = roster;
    let mut dead: Vec<usize> = Vec::new();
    let mut rng = Lcg::new(seed);
    let ghost mut fuel: nat = 0;
    proof {
        lemma_init_inv(cs0, seed);
        assert(to_ints(dead@) =~= st0.dead);
        assert((SimState { chars: chars.deep_view(), dead: to_ints(dead@), rng: rng.state })
            == st0);
    }
    let mut alive = alive_indices(&chars);
    while alive.len() > 1
        invariant
            roster_ok(cs0),
            st0 == init_state(cs0, seed),
            to_ints(alive@) == alive_seq(chars.deep_view()),
            (SimState { chars: chars.deep_view(), dead: to_ints(dead@), rng: rng.state })
                == iter_steps(st0, fuel),
            sim_inv(cs0, iter_steps(st0, fuel)),
        decreases vitality(chars.deep_view()),
    {
        let ghost pre = iter_steps(st0, fuel);
        proof {
            assert(pre.chars == chars.deep_view());
            lemma_alive_seq(pre.chars);
            lemma_vitality_nonneg(pre.chars);
        }
        let m = alive.len();
        let a_pick = rng.next_below(m);
        let d_pick = rng.next_below(m - 1);
        let dpos = if d_pick < a_pick {
            d_pick
        } else {
            d_pick + 1
        };
        let a_idx = alive[a_pick];
        let d_idx = alive[dpos];
        proof {
            assert(a_idx as int == alive_seq(pre.chars)[a_pick as int]);
            assert(d_idx as int == alive_seq(pre.chars)[dpos as int]);
            assert(a_idx != d_idx);
            assert(pre.chars[a_idx as int].is_alive && pre.chars[d_idx as int].is_alive);
            assert(char_ok(cs0[a_idx as int]));
            assert(char_ok(cs0[d_idx as int]));
            assert(chars@.len() == pre.chars.len());
        }
        let sl = chars.as_mut_slice();
        let (attacker, defender) = two_mut(sl, a_idx, d_idx);
        if attacker.is_alive && defender.is_alive {
            defender.hp = defender.hp - attacker.atk;
            if defender.hp <= 0 && defender.is_alive {
                defender.is_alive = false;
                dead.push(d_idx);
            }
        }
        proof {
            assert(!halted(pre));
            lemma_step_preserves(cs0, pre);
            assert(chars.deep_view() =~= step(pre).chars);
            assert(to_ints(dead@) =~= step(pre).dead);
            assert((SimState { chars: chars.deep_view(), dead: to_ints(dead@), rng: rng.state })
                == step(pre));
            lemma_iter_unfold(st0, fuel);
            fuel = fuel + 1;
            lemma_vitality_nonneg(step(pre).chars);
        }
        alive = alive_indices(&chars);
    }
    let ghost fs = iter_steps(st0, fuel);
    proof {
        assert(halted(fs));
        lemma_alive_seq(fs.chars);
    }
    let mut order = dead;
    order.append(&mut alive);
    let ghost dord = to_ints(order@);
    proof {
        assert(dord =~= death_order(fs));
    }
    let total = order.len();
    proof {
        assert(total == cs0.len());
    }
    let ghost rr = ranked_results(fs.chars, dord);
    let mut results: Vec<BattleResult> = Vec::new();
    let mut k: usize = 0;
    proof {
        assert(results.deep_view() =~= rr.take(0));
    }
    while k < total
        invariant
            k <= total,
            total == order@.len(),
            total == cs0.len(),
            dord == to_ints(order@),
            dord == death_order(fs),
            rr == ranked_results(fs.chars, dord),
            chars.deep_view() == fs.chars,
            chars@.len() == total,
            sim_inv(cs0, fs),
            forall|t: int| 0 <= t < dord.len() ==> 0 <= #[trigger] dord[t] < total,
            results@.len() == k as int,
            results.deep_view() == rr.take(k as int),
        decreases total - k,
    {
        let t = total - 1 - k;
        let idx = order[t];
        proof {
            assert(idx as int == dord[t as int]);
            assert((idx as int) < total as int);
            assert(chars.deep_view()[idx as int] == fs.chars[idx as int]);
        }
        let c = &chars[idx];
        let nm = c.name.clone();
        let r = BattleResult { name: nm, rank: k + 1, final_hp: c.hp, is_winner: k == 0 };
        results.push(r);
        proof {
            assert(r@ == result_of(fs.chars[dord[dord.len() - 1 - k]], k + 1));
            assert(rr[k as int] == result_of(fs.chars[dord[dord.len() - 1 - k]], k + 1));
            assert(rr.len() == total as int);
            assert(results.deep_view().len() == k as int + 1);
            assert forall|x: int| 0 <= x < k as int + 1 implies results.deep_view()[x] == rr.take(
                k as int + 1,
            )[x] by {
                if x < k as int {
                    assert(results.deep_view()[x] == rr.take(k as int)[x]);
                }
            }
            assert(results.deep_view() =~= rr.take(k as int + 1));
        }
        k = k + 1;
    }
    proof {
        assert(rr.take(total as int) =~= rr);
        assert(halted(iter_steps(init_state(cs0, seed), fuel)));
        let f0 = halt_fuel(cs0, seed);
        assert(halted(iter_steps(init_state(cs0, seed), f0)));
        lemma_battle_deterministic(cs0, seed, fuel, f0);
        assert(halt_state(cs0, seed) == fs);
        assert(battle_results(cs0, seed) == rr);
    }
    results
}

} // verus!
