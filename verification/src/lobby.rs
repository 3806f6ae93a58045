//! Lobby formation and finalization.
//!
//! A single optional lobby slot collects joiners that arrive inside one join
//! window.  At the deadline the lobby is detached, the roster is padded with
//! generated filler characters up to [`CAPACITY`], one battle runs over the
//! full roster, and every joiner is handed exactly one result: the outcome
//! record found under its name, or the sentinel failure record when duplicate
//! names collapse in the lookup.

use vstd::prelude::*;
use vstd::string::StringExecFns;

use crate::battle::{
    battle_results, death_order, halt_state, lemma_battle_results_form,
    lemma_death_order_permutation, lemma_halt_state, result_of, run_battle,
};
use crate::character::{
    char_ok, roster_ok, sentinel_model, BattleResult, CharModel, Character, ResultModel, CAPACITY,
    HUMAN_ATK, HUMAN_HP, JOIN_WINDOW_MS,
};
use crate::rng::{lcg_next, lcg_pick, Lcg};

verus! {

/// The decimal digit character for a value below ten.
pub open spec fn digit_char(d: int) -> char
    recommends
        0 <= d < 10,
{
    if d == 0 {
        '0'
    } else if d == 1 {
        '1'
    } else if d == 2 {
        '2'
    } else if d == 3 {
        '3'
    } else if d == 4 {
        '4'
    } else if d == 5 {
        '5'
    } else if d == 6 {
        '6'
    } else if d == 7 {
        '7'
    } else if d == 8 {
        '8'
    } else {
        '9'
    }
}

/// The decimal notation of a non-negative integer, without leading zeroes.
pub open spec fn decimal_str(n: int) -> Seq<char>
    recommends
        n >= 0,
    decreases n,
{
    if n < 10 {
        seq![digit_char(n)]
    } else {
        decimal_str(n / 10).push(digit_char(n % 10))
    }
}

/// Appends the character of one decimal digit to a string.
fn push_digit(s: &mut String, d: usize)
    requires
        d < 10,
    ensures
        final(s)@ == old(s)@ + seq![digit_char(d as int)],
{
    let part: &str = if d == 0 {
        "0"
    } else if d == 1 {
        "1"
    } else if d == 2 {
        "2"
    } else if d == 3 {
        "3"
    } else if d == 4 {
        "4"
    } else if d == 5 {
        "5"
    } else if d == 6 {
        "6"
    } else if d == 7 {
        "7"
    } else if d == 8 {
        "8"
    } else {
        "9"
    };
    proof {
        reveal_strlit("0");
        reveal_strlit("1");
        reveal_strlit("2");
        reveal_strlit("3");
        reveal_strlit("4");
        reveal_strlit("5");
        reveal_strlit("6");
        reveal_strlit("7");
        reveal_strlit("8");
        reveal_strlit("9");
        assert(part@ =~= seq![digit_char(d as int)]);
    }
    s.append(part);
}

/// Appends the decimal notation of `n` to a string.
fn push_decimal(s: &mut String, n: usize)
    ensures
        final(s)@ == old(s)@ + decimal_str(n as int),
    decreases n,
{
    if n < 10 {
        push_digit(s, n);
    } else {
        push_decimal(s, n / 10);
        push_digit(s, n % 10);
        proof {
            assert(old(s)@ + decimal_str(n as int / 10) + seq![digit_char(n as int % 10)] =~= old(
                s,
            )@ + decimal_str(n as int));
        }
    }
}

/// The name prefix of generated filler characters.
pub open spec fn npc_prefix() -> Seq<char> {
    "NPC_"@
}

/// The filler character generated at roster position `index` from generator
/// state `s0`: hit points drawn from `[80, 120)`, attack from `[5, 20)`,
/// alive, and not a human joiner.
pub open spec fn filler_model(prefix: Seq<char>, index: int, s0: u64) -> CharModel {
    let s1 = lcg_next(s0);
    let hp = 80 + lcg_pick(s1, 40);
    let s2 = lcg_next(s1);
    let atk = 5 + lcg_pick(s2, 15);
    CharModel {
        name: prefix + decimal_str(index),
        hp: hp,
        atk: atk,
        is_alive: true,
        is_client: false,
    }
}

/// Generates one filler character, drawing its stats from the given
/// generator.
pub fn random_character(prefix: &str, index: usize, rng: &mut Lcg) -> (c: Character)
    ensures
        c@ == filler_model(prefix@, index as int, old(rng).state),
        final(rng).state == lcg_next(lcg_next(old(rng).state)),
        char_ok(c@),
{
    let mut name = String::from_str(prefix);
    push_decimal(&mut name, index);
    let hp_off = rng.next_below(40);
    let hp: i32 = 80 + hp_off as i32;
    let atk_off = rng.next_below(15);
    let atk: i32 = 5 + atk_off as i32;
    Character { name, hp, atk, is_alive: true, is_client: false }
}

/// The roster padded with filler characters up to [`CAPACITY`], and the
/// generator state left over for the battle itself.
pub open spec fn pad_spec(cs: Seq<CharModel>, s0: u64) -> (Seq<CharModel>, u64)
    decreases CAPACITY - cs.len(),
{
    if cs.len() >= CAPACITY {
        (cs, s0)
    } else {
        pad_spec(
            cs.push(filler_model(npc_prefix(), cs.len() as int, s0)),
            lcg_next(lcg_next(s0)),
        )
    }
}

/// Padding keeps the joiners in place at the front and appends battle-ready
/// filler characters (never human) up to exactly [`CAPACITY`].
pub proof fn lemma_pad_spec(cs: Seq<CharModel>, s0: u64)
    requires
        cs.len() <= CAPACITY,
    ensures
        pad_spec(cs, s0).0.len() == CAPACITY,
        forall|i: int| 0 <= i < cs.len() ==> #[trigger] pad_spec(cs, s0).0[i] == cs[i],
        forall|i: int|
            cs.len() <= i < CAPACITY ==> {
                let c = #[trigger] pad_spec(cs, s0).0[i];
                &&& !c.is_client
                &&& c.is_alive
                &&& 80 <= c.hp < 120
                &&& 5 <= c.atk < 20
            },
        roster_ok(cs) ==> roster_ok(pad_spec(cs, s0).0),
    decreases CAPACITY - cs.len(),
{
    if cs.len() < CAPACITY {
        let c = filler_model(npc_prefix(), cs.len() as int, s0);
        assert(0 <= lcg_pick(lcg_next(s0), 40) < 40);
        assert(0 <= lcg_pick(lcg_next(lcg_next(s0)), 15) < 15);
        lemma_pad_spec(cs.push(c), lcg_next(lcg_next(s0)));
        if roster_ok(cs) {
            assert(roster_ok(cs.push(c))) by {
                assert(forall|i: int|
                    0 <= i < cs.len() ==> #[trigger] cs.push(c)[i] == cs[i]);
                assert(cs.push(c)[cs.len() as int] == c);
            }
        }
    }
}

/// Pads a roster in place with generated filler characters up to
/// [`CAPACITY`], drawing their stats from the given generator.
pub fn pad_roster(roster: &mut Vec<Character>, rng: &mut Lcg)
    requires
        old(roster)@.len() <= CAPACITY,
    ensures
        final(roster).deep_view() == pad_spec(old(roster).deep_view(), old(rng).state).0,
        final(rng).state == pad_spec(old(roster).deep_view(), old(rng).state).1,
        final(roster)@.len() == CAPACITY,
{
    let ghost cs0 = roster.deep_view();
    let ghost s0 = rng.state;
    while roster.len() < CAPACITY
        invariant
            roster@.len() <= CAPACITY,
            pad_spec(roster.deep_view(), rng.state) == pad_spec(cs0, s0),
        decreases CAPACITY - roster@.len(),
    {
        let ghost pre = roster.deep_view();
        let ghost spre = rng.state;
        let index = roster.len();
        let c = random_character("NPC_", index, rng);
        roster.push(c);
        proof {
            assert(roster.deep_view() =~= pre.push(
                filler_model(npc_prefix(), pre.len() as int, spre),
            ));
        }
    }
    proof {
        lemma_pad_spec(roster.deep_view(), rng.state);
        assert(pad_spec(roster.deep_view(), rng.state).0 == roster.deep_view());
    }
}

/// Whether an earlier joiner (index below `k`) carries the same name as
/// joiner `k`; duplicate names collapse in the name-keyed result lookup.
pub open spec fn duplicate_before(names: Seq<Seq<char>>, k: int) -> bool {
    exists|j: int| 0 <= j < k && names[j] == names[k]
}

/// The index of the last result carrying the given name, or `-1` when no
/// result does.
pub open spec fn last_match(results: Seq<ResultModel>, name: Seq<char>) -> int
    decreases results.len(),
{
    if results.len() == 0 {
        -1
    } else if results.last().name == name {
        results.len() - 1
    } else {
        last_match(results.drop_last(), name)
    }
}

/// What joiner `k` is handed: the result found under its name, or the
/// sentinel failure record when an earlier joiner already claimed the name or
/// no result carries it.
pub open spec fn delivery_model(
    names: Seq<Seq<char>>,
    results: Seq<ResultModel>,
    k: int,
) -> ResultModel {
    if duplicate_before(names, k) || last_match(results, names[k]) < 0 {
        sentinel_model(names[k])
    } else {
        results[last_match(results, names[k])]
    }
}

/// The deliveries of a whole finalization: pad the joiners to a full roster,
/// run one battle over it, and look every joiner's result up by name.
pub open spec fn finalize_spec(joiners: Seq<CharModel>, seed: u64) -> Seq<ResultModel> {
    let padded = pad_spec(joiners, seed);
    let results = battle_results(padded.0, padded.1);
    let names = joiners.map_values(|c: CharModel| c.name);
    Seq::new(joiners.len(), |k: int| delivery_model(names, results, k))
}

/// All joiners of one lobby receive results derived from one shared battle:
/// its roster holds the joiners themselves at the front and exactly
/// `CAPACITY - K` generated filler characters (never human) behind them, and
/// every delivery is the name lookup of joiner `k` in that single battle's
/// outcome.
pub proof fn lemma_shared_battle(joiners: Seq<CharModel>, seed: u64)
    requires
        roster_ok(joiners),
        joiners.len() <= CAPACITY,
    ensures
        finalize_spec(joiners, seed).len() == joiners.len(),
        pad_spec(joiners, seed).0.len() == CAPACITY,
        forall|i: int| 0 <= i < joiners.len() ==> #[trigger] pad_spec(joiners, seed).0[i]
            == joiners[i],
        forall|i: int|
            joiners.len() <= i < CAPACITY ==> !(#[trigger] pad_spec(joiners, seed).0[i]).is_client,
        forall|k: int|
            0 <= k < joiners.len() ==> #[trigger] finalize_spec(joiners, seed)[k]
                == delivery_model(
                joiners.map_values(|c: CharModel| c.name),
                battle_results(pad_spec(joiners, seed).0, pad_spec(joiners, seed).1),
                k,
            ),
{
    lemma_pad_spec(joiners, seed);
}

/// `last_match` finds a result exactly when one carries the name, and what it
/// finds carries the name.
pub proof fn lemma_last_match(results: Seq<ResultModel>, name: Seq<char>)
    ensures
        last_match(results, name) >= 0 ==> last_match(results, name) < results.len() && results[
            last_match(results, name)
        ].name == name,
        (exists|j: int|
            0 <= j < results.len() && (#[trigger] results[j]).name == name) ==> last_match(
            results,
            name,
        ) >= 0,
    decreases results.len(),
{
    if results.len() > 0 && results.last().name != name {
        lemma_last_match(results.drop_last(), name);
        if exists|j: int| 0 <= j < results.len() && (#[trigger] results[j]).name == name {
            let j = choose|j: int| 0 <= j < results.len() && (#[trigger] results[j]).name == name;
            assert(j < results.len() - 1);
            assert(results.drop_last()[j] == results[j]);
        }
    }
}

/// A joiner whose name no earlier joiner shares is owed a real outcome
/// record: its delivery carries its own name, is one of the battle's results,
/// and its rank lies in `1..=CAPACITY` — never the sentinel.
pub proof fn lemma_unique_name_delivery(joiners: Seq<CharModel>, seed: u64, k: int)
    requires
        roster_ok(joiners),
        joiners.len() <= CAPACITY,
        0 <= k < joiners.len(),
        !duplicate_before(joiners.map_values(|c: CharModel| c.name), k),
    ensures
        finalize_spec(joiners, seed)[k].name == joiners[k].name,
        exists|j: int|
            0 <= j < CAPACITY && finalize_spec(joiners, seed)[k] == #[trigger] battle_results(
                pad_spec(joiners, seed).0,
                pad_spec(joiners, seed).1,
            )[j],
        1 <= finalize_spec(joiners, seed)[k].rank <= CAPACITY,
{
    lemma_pad_spec(joiners, seed);
    let roster = pad_spec(joiners, seed).0;
    let s1 = pad_spec(joiners, seed).1;
    lemma_halt_state(roster, s1);
    lemma_death_order_permutation(roster, s1);
    lemma_battle_results_form(roster, s1);
    let fs = halt_state(roster, s1);
    let ord = death_order(fs);
    let results = battle_results(roster, s1);
    assert(ord.contains(k));
    let p = choose|p: int| 0 <= p < ord.len() && ord[p] == k;
    let j = ord.len() - 1 - p;
    assert(results[j] == result_of(fs.chars[k], j + 1));
    assert(fs.chars[k].name == roster[k].name);
    assert(roster[k] == joiners[k]);
    assert(results[j].name == joiners[k].name);
    let names = joiners.map_values(|c: CharModel| c.name);
    assert(names[k] == joiners[k].name);
    lemma_last_match(results, names[k]);
    let lm = last_match(results, names[k]);
    assert(lm >= 0);
    assert(finalize_spec(joiners, seed)[k] == delivery_model(names, results, k));
    assert(delivery_model(names, results, k) == results[lm]);
    assert(results[lm].rank == lm + 1);
}

/// Two joiners whose names are each unclaimed receive two different outcome
/// records of the shared battle, so their ranks differ.
pub proof fn lemma_distinct_joiners_distinct_ranks(
    joiners: Seq<CharModel>,
    seed: u64,
    k1: int,
    k2: int,
)
    requires
        roster_ok(joiners),
        joiners.len() <= CAPACITY,
        0 <= k1 < joiners.len(),
        0 <= k2 < joiners.len(),
        k1 != k2,
        !duplicate_before(joiners.map_values(|c: CharModel| c.name), k1),
        !duplicate_before(joiners.map_values(|c: CharModel| c.name), k2),
    ensures
        finalize_spec(joiners, seed)[k1].rank != finalize_spec(joiners, seed)[k2].rank,
{
    let names = joiners.map_values(|c: CharModel| c.name);
    assert(names[k1] != names[k2]) by {
        if names[k1] == names[k2] {
            if k1 < k2 {
                assert(duplicate_before(names, k2));
            } else {
                assert(duplicate_before(names, k1));
            }
        }
    }
    lemma_pad_spec(joiners, seed);
    let roster = pad_spec(joiners, seed).0;
    let s1 = pad_spec(joiners, seed).1;
    let results = battle_results(roster, s1);
    lemma_battle_results_form(roster, s1);
    lemma_unique_name_delivery(joiners, seed, k1);
    lemma_unique_name_delivery(joiners, seed, k2);
    lemma_last_match(results, names[k1]);
    lemma_last_match(results, names[k2]);
    let lm1 = last_match(results, names[k1]);
    let lm2 = last_match(results, names[k2]);
    assert(finalize_spec(joiners, seed)[k1] == results[lm1]);
    assert(finalize_spec(joiners, seed)[k2] == results[lm2]);
    assert(results[lm1].name != results[lm2].name);
    assert(results[lm1].rank == lm1 + 1 && results[lm2].rank == lm2 + 1);
}

/// A lobby: the joiners admitted inside one join window, in arrival order,
/// and the fixed deadline (in milliseconds) set at creation.
pub struct Lobby {
    pub joiners: Vec<Character>,
    pub deadline_ms: u64,
}

impl Lobby {
    /// A well-formed lobby never exceeds the roster capacity and holds only
    /// battle-ready joiners.
    pub open spec fn wf(&self) -> bool {
        &&& self.joiners@.len() <= CAPACITY
        &&& roster_ok(self.joiners.deep_view())
    }
}

/// The process-wide registry: a single optional lobby slot, so at most one
/// lobby exists at any instant.
pub struct Registry {
    pub lobby: Option<Lobby>,
}

impl Registry {
    /// Every lobby the registry may hold is well-formed.
    pub open spec fn wf(&self) -> bool {
        match self.lobby {
            Option::Some(l) => l.wf(),
            Option::None => true,
        }
    }

    /// A fresh registry holds no lobby.
    pub fn new() -> (r: Registry)
        ensures
            r.lobby is None,
            r.wf(),
    {
        Registry { lobby: None }
    }
}

/// The character a human joiner with the given name plays.
pub open spec fn human_model(name: Seq<char>) -> CharModel {
    CharModel {
        name: name,
        hp: HUMAN_HP as int,
        atk: HUMAN_ATK as int,
        is_alive: true,
        is_client: true,
    }
}

/// What a join attempt decided.
pub enum JoinDecision {
    /// A fresh lobby was created with the joiner as its first entry; the
    /// caller must schedule the finalizer for the returned deadline, and this
    /// is the only decision that asks for scheduling.
    Created { deadline_ms: u64 },
    /// The joiner was appended to the existing lobby at the given position.
    Joined { index: usize },
    /// The name was empty; the registry was left untouched.
    RejectedEmptyName,
    /// The lobby already holds a full roster; the registry was left
    /// untouched.
    RejectedFull,
}

/// Registers a joiner: rejects an empty name outright, creates the lobby on
/// the none-to-some transition (the one moment the finalizer must be
/// scheduled), appends to an existing lobby with room, and rejects the
/// overflow joiner of a full lobby.
pub fn join_lobby(reg: &mut Registry, name: String, now_ms: u64) -> (d: JoinDecision)
    requires
        old(reg).wf(),
        now_ms + JOIN_WINDOW_MS <= u64::MAX,
    ensures
        final(reg).wf(),
        d is RejectedEmptyName <==> name@.len() == 0,
        d is Created <==> (name@.len() > 0 && old(reg).lobby is None),
        name@.len() == 0 ==> *final(reg) == *old(reg),
        name@.len() > 0 && old(reg).lobby is None ==> ({
            &&& d == (JoinDecision::Created { deadline_ms: (now_ms + JOIN_WINDOW_MS) as u64 })
            &&& final(reg).lobby is Some
            &&& final(reg).lobby.unwrap().deadline_ms == now_ms + JOIN_WINDOW_MS
            &&& final(reg).lobby.unwrap().joiners.deep_view() == seq![human_model(name@)]
        }),
        name@.len() > 0 && old(reg).lobby is Some && old(reg).lobby.unwrap().joiners@.len()
            < CAPACITY ==> ({
            &&& d == (JoinDecision::Joined {
                index: old(reg).lobby.unwrap().joiners@.len() as usize,
            })
            &&& final(reg).lobby is Some
            &&& final(reg).lobby.unwrap().deadline_ms == old(reg).lobby.unwrap().deadline_ms
            &&& final(reg).lobby.unwrap().joiners.deep_view() == old(
                reg,
            ).lobby.unwrap().joiners.deep_view().push(human_model(name@))
        }),
        name@.len() > 0 && old(reg).lobby is Some && old(reg).lobby.unwrap().joiners@.len()
            >= CAPACITY ==> (d is RejectedFull && *final(reg) == *old(reg)),
{
    if name.as_str().is_empty() {
        return JoinDecision::RejectedEmptyName;
    }
    let joiner = Character::new_human(name);
    let cur = reg.lobby.take();
    match cur {
        None => {
            let mut joiners: Vec<Character> = Vec::new();
            joiners.push(joiner);
            proof {
                assert(joiners.deep_view() =~= seq![human_model(name@)]);
            }
            let deadline_ms = now_ms + JOIN_WINDOW_MS;
            reg.lobby = Some(Lobby { joiners, deadline_ms });
            JoinDecision::Created { deadline_ms }
        },
        Some(l) => {
            if l.joiners.len() >= CAPACITY {
                reg.lobby = Some(l);
                JoinDecision::RejectedFull
            } else {
                let mut l = l;
                let index = l.joiners.len();
                let ghost before = l.joiners.deep_view();
                l.joiners.push(joiner);
                proof {
                    assert(l.joiners.deep_view() =~= before.push(human_model(name@)));
                }
                reg.lobby = Some(l);
                JoinDecision::Joined { index }
            }
        },
    }
}

/// Detaches the current lobby, leaving the slot empty; a second call finds
/// nothing, which makes a double-fired finalizer harmless.
pub fn detach_lobby(reg: &mut Registry) -> (l: Option<Lobby>)
    requires
        old(reg).wf(),
    ensures
        final(reg).lobby is None,
        l == old(reg).lobby,
        l matches Some(lob) ==> lob.wf(),
{
    reg.lobby.take()
}

/// Whether any of the first `k` names equals the name at position `k`.
fn name_seen_before(names: &Vec<String>, k: usize) -> (b: bool)
    requires
        k < names@.len(),
    ensures
        b == duplicate_before(names.deep_view(), k as int),
{
    let mut j: usize = 0;
    let mut found = false;
    while j < k
        invariant
            j <= k,
            k < names@.len(),
            found == (exists|t: int|
                0 <= t < j && names.deep_view()[t] == names.deep_view()[k as int]),
        decreases k - j,
    {
        if names[j] == names[k] {
            proof {
                assert(names.deep_view()[j as int] == names.deep_view()[k as int]);
            }
            found = true;
        }
        j = j + 1;
    }
    found
}

/// Finds the index of the last result carrying the given name.
fn find_last(results: &Vec<BattleResult>, name: &String) -> (r: Option<usize>)
    ensures
        last_match(results.deep_view(), name@) >= 0 ==> (r matches Some(idx) && idx as int
            == last_match(results.deep_view(), name@) && idx < results@.len()),
        last_match(results.deep_view(), name@) < 0 ==> r is None,
{
    let ghost rv = results.deep_view();
    let mut j = results.len();
    proof {
        assert(rv.take(j as int) =~= rv);
    }
    while j > 0
        invariant
            j <= results@.len(),
            rv == results.deep_view(),
            last_match(rv, name@) == last_match(rv.take(j as int), name@),
        decreases j,
    {
        proof {
            assert(rv.take(j as int).drop_last() =~= rv.take(j as int - 1));
            assert(rv.take(j as int).last() == rv[j as int - 1]);
        }
        if results[j - 1].name == *name {
            proof {
                assert(last_match(rv.take(j as int), name@) == j - 1);
            }
            return Some(j - 1);
        }
        j = j - 1;
    }
    proof {
        assert(last_match(rv.take(0), name@) == -1);
    }
    None
}

/// Finalizes a detached lobby: pads the roster to [`CAPACITY`] with filler
/// characters, runs one battle seeded by `seed` over the full roster, and
/// produces one delivery per joiner, in joiner order — the result looked up
/// under the joiner's name, or the sentinel failure record when duplicate
/// names collapse in the lookup.
pub fn finalize_match(lobby: Lobby, seed: u64) -> (deliveries: Vec<BattleResult>)
    requires
        lobby.wf(),
    ensures
        deliveries.deep_view() == finalize_spec(lobby.joiners.deep_view(), seed),
{
    let Lobby { joiners, deadline_ms: _ } = lobby;
    let ghost jv = joiners.deep_view();
    let mut names: Vec<String> = Vec::new();
    let mut i: usize = 0;
    while i < joiners.len()
        invariant
            i <= joiners@.len(),
            jv == joiners.deep_view(),
            names@.len() == i,
            names.deep_view() == jv.map_values(|c: CharModel| c.name).take(i as int),
        decreases joiners@.len() - i,
    {
        let nm = joiners[i].name.clone();
        names.push(nm);
        proof {
            assert(names.deep_view() =~= jv.map_values(|c: CharModel| c.name).take(i as int + 1));
        }
        i = i + 1;
    }
    let ghost nv = names.deep_view();
    proof {
        assert(jv.map_values(|c: CharModel| c.name).take(jv.len() as int) =~= jv.map_values(
            |c: CharModel| c.name,
        ));
    }
    let mut roster = joiners;
    let mut rng = Lcg::new(seed);
    pad_roster(&mut roster, &mut rng);
    proof {
        lemma_pad_spec(jv, seed);
    }
    let results = run_battle(roster, rng.state);
    let ghost rv = results.deep_view();
    proof {
        assert(rv == battle_results(pad_spec(jv, seed).0, pad_spec(jv, seed).1));
    }
    let ghost target = Seq::new(jv.len(), |k: int| delivery_model(nv, rv, k));
    let total = names.len();
    let mut deliveries: Vec<BattleResult> = Vec::new();
    let mut k: usize = 0;
    proof {
        assert(deliveries.deep_view() =~= target.take(0));
    }
    while k < total
        invariant
            k <= total,
            total == names@.len(),
            total == jv.len(),
            nv == names.deep_view(),
            rv == results.deep_view(),
            target == Seq::new(jv.len(), |t: int| delivery_model(nv, rv, t)),
            deliveries@.len() == k,
            deliveries.deep_view() == target.take(k as int),
        decreases total - k,
    {
        let dup = name_seen_before(&names, k);
        let d: BattleResult;
        if dup {
            d = BattleResult::sentinel(names[k].clone());
        } else {
            match find_last(&results, &names[k]) {
                Some(idx) => {
                    d = results[idx].clone();
                },
                None => {
                    d = BattleResult::sentinel(names[k].clone());
                },
            }
        }
        proof {
            assert(names.deep_view()[k as int] == names@[k as int]@);
            assert(d@ == delivery_model(nv, rv, k as int));
        }
        deliveries.push(d);
        proof {
            assert(deliveries.deep_view() =~= target.take(k as int + 1));
        }
        k = k + 1;
    }
    proof {
        assert(target.take(total as int) =~= target);
        assert(target =~= finalize_spec(jv, seed));
    }
    deliveries
}

} // verus!
