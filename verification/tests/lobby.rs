//! Lobby formation, the overflow policy, and finalization with its
//! duplicate-name fallback.

use battle_royale::character::{CAPACITY, HUMAN_ATK, HUMAN_HP, JOIN_WINDOW_MS, SENTINEL_HP, SENTINEL_RANK};
use battle_royale::lobby::random_character;
use battle_royale::{detach_lobby, finalize_match, join_lobby, JoinDecision, Lcg, Registry};

#[test]
fn operational_constants_are_fixed() {
    assert_eq!(CAPACITY, 100);
    assert_eq!(JOIN_WINDOW_MS, 10_000);
    assert_eq!(HUMAN_HP, 100);
    assert_eq!(HUMAN_ATK, 20);
}

#[test]
fn first_joiner_creates_the_lobby() {
    let mut reg = Registry::new();
    let d = join_lobby(&mut reg, "Alice".to_string(), 1000);
    assert!(matches!(d, JoinDecision::Created { deadline_ms: 11000 }));
    let lobby = reg.lobby.as_ref().expect("lobby must exist");
    assert_eq!(lobby.joiners.len(), 1);
    assert_eq!(lobby.joiners[0].name, "Alice");
    assert_eq!(lobby.joiners[0].hp, 100);
    assert_eq!(lobby.joiners[0].atk, 20);
    assert!(lobby.joiners[0].is_alive);
    assert!(lobby.joiners[0].is_client);
}

#[test]
fn second_joiner_joins_without_new_lobby() {
    let mut reg = Registry::new();
    let first = join_lobby(&mut reg, "A".to_string(), 0);
    assert!(matches!(first, JoinDecision::Created { .. }));
    let second = join_lobby(&mut reg, "B".to_string(), 5);
    assert!(matches!(second, JoinDecision::Joined { index: 1 }));
    let lobby = reg.lobby.as_ref().expect("lobby must exist");
    assert_eq!(lobby.joiners.len(), 2);
    assert_eq!(lobby.deadline_ms, 10000, "deadline is fixed at creation");
}

#[test]
fn empty_name_is_rejected_and_lobby_untouched() {
    let mut reg = Registry::new();
    let d = join_lobby(&mut reg, String::new(), 0);
    assert!(matches!(d, JoinDecision::RejectedEmptyName));
    assert!(reg.lobby.is_none(), "no lobby may be created for an empty name");
    join_lobby(&mut reg, "A".to_string(), 0);
    let d2 = join_lobby(&mut reg, String::new(), 1);
    assert!(matches!(d2, JoinDecision::RejectedEmptyName));
    assert_eq!(reg.lobby.as_ref().unwrap().joiners.len(), 1);
}

#[test]
fn overflow_joiner_is_rejected() {
    let mut reg = Registry::new();
    for i in 0..CAPACITY {
        let d = join_lobby(&mut reg, format!("P{}", i), 0);
        if i == 0 {
            assert!(matches!(d, JoinDecision::Created { .. }));
        } else {
            assert!(matches!(d, JoinDecision::Joined { .. }));
        }
    }
    let d = join_lobby(&mut reg, "TooLate".to_string(), 1);
    assert!(matches!(d, JoinDecision::RejectedFull));
    assert_eq!(reg.lobby.as_ref().unwrap().joiners.len(), CAPACITY);
}

#[test]
fn detach_empties_the_slot_and_double_fire_is_harmless() {
    let mut reg = Registry::new();
    join_lobby(&mut reg, "A".to_string(), 0);
    let l = detach_lobby(&mut reg);
    assert!(l.is_some());
    assert!(reg.lobby.is_none());
    let again = detach_lobby(&mut reg);
    assert!(again.is_none(), "a second fire finds nothing to do");
}

#[test]
fn single_joiner_gets_a_result_from_a_full_battle() {
    let mut reg = Registry::new();
    join_lobby(&mut reg, "Alice".to_string(), 0);
    let lobby = detach_lobby(&mut reg).unwrap();
    let deliveries = finalize_match(lobby, 4242);
    assert_eq!(deliveries.len(), 1);
    let r = &deliveries[0];
    assert_eq!(r.name, "Alice");
    assert!(r.rank >= 1 && r.rank <= CAPACITY, "rank {} out of range", r.rank);
    if r.rank == 1 {
        assert!(r.final_hp > 0);
    } else {
        assert!(r.final_hp <= 0);
    }
}

#[test]
fn two_joiners_share_one_battle_and_ranks_differ() {
    let mut reg = Registry::new();
    join_lobby(&mut reg, "A".to_string(), 0);
    join_lobby(&mut reg, "B".to_string(), 3);
    let lobby = detach_lobby(&mut reg).unwrap();
    let deliveries = finalize_match(lobby, 7);
    assert_eq!(deliveries.len(), 2);
    assert_eq!(deliveries[0].name, "A");
    assert_eq!(deliveries[1].name, "B");
    assert!(deliveries[0].rank >= 1 && deliveries[0].rank <= CAPACITY);
    assert!(deliveries[1].rank >= 1 && deliveries[1].rank <= CAPACITY);
    assert_ne!(deliveries[0].rank, deliveries[1].rank);
}

#[test]
fn finalization_is_reproducible_from_the_seed() {
    let mk = || {
        let mut reg = Registry::new();
        join_lobby(&mut reg, "A".to_string(), 0);
        join_lobby(&mut reg, "B".to_string(), 1);
        detach_lobby(&mut reg).unwrap()
    };
    let d1 = finalize_match(mk(), 555);
    let d2 = finalize_match(mk(), 555);
    for (x, y) in d1.iter().zip(d2.iter()) {
        assert_eq!(x.name, y.name);
        assert_eq!(x.rank, y.rank);
        assert_eq!(x.final_hp, y.final_hp);
        assert_eq!(x.is_winner, y.is_winner);
    }
}

#[test]
fn duplicate_names_collapse_to_one_real_result() {
    let mut reg = Registry::new();
    join_lobby(&mut reg, "Dup".to_string(), 0);
    join_lobby(&mut reg, "Dup".to_string(), 2);
    let lobby = detach_lobby(&mut reg).unwrap();
    let deliveries = finalize_match(lobby, 13);
    assert_eq!(deliveries.len(), 2);
    assert_eq!(SENTINEL_RANK, 999);
    assert_eq!(SENTINEL_HP, -1);
    let sentinels: Vec<bool> = deliveries
        .iter()
        .map(|r| r.rank == 999 && r.final_hp == -1 && !r.is_winner)
        .collect();
    assert_eq!(
        sentinels.iter().filter(|s| **s).count(),
        1,
        "exactly one of the two gets the sentinel failure result"
    );
    let real = deliveries.iter().zip(sentinels.iter()).find(|(_, s)| !**s).unwrap().0;
    assert_eq!(real.name, "Dup");
    assert!(real.rank >= 1 && real.rank <= CAPACITY);
    assert_eq!(sentinels[0], false, "the first joiner claims the lookup entry");
    assert_eq!(sentinels[1], true, "the second finds the entry gone");
}

#[test]
fn filler_characters_have_generated_names_and_ranged_stats() {
    let mut rng = Lcg::new(9);
    let c = random_character("NPC_", 17, &mut rng);
    assert_eq!(c.name, "NPC_17");
    assert!((80..120).contains(&c.hp));
    assert!((5..20).contains(&c.atk));
    assert!(c.is_alive);
    assert!(!c.is_client);
    let c2 = random_character("NPC_", 103, &mut rng);
    assert_eq!(c2.name, "NPC_103");
    let c3 = random_character("NPC_", 0, &mut rng);
    assert_eq!(c3.name, "NPC_0");
}
