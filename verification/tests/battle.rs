//! Battle engine behaviour: dense ranks, a unique winner, termination on
//! full rosters, and seeded reproducibility.

use battle_royale::battle::run_battle;
use battle_royale::character::{BattleResult, Character};
use battle_royale::rng::Lcg;
use battle_royale::two_mut;

fn human(name: &str) -> Character {
    Character {
        name: name.to_string(),
        hp: 100,
        atk: 20,
        is_alive: true,
        is_client: true,
    }
}

fn fighter(name: &str, hp: i32, atk: i32) -> Character {
    Character {
        name: name.to_string(),
        hp,
        atk,
        is_alive: true,
        is_client: false,
    }
}

fn roster(n: usize) -> Vec<Character> {
    (0..n).map(|i| fighter(&format!("F{}", i), 50 + (i as i32 % 60), 1 + (i as i32 % 9))).collect()
}

fn assert_dense_ranks(results: &[BattleResult], n: usize) {
    assert_eq!(results.len(), n);
    let mut seen = vec![false; n + 1];
    for (k, r) in results.iter().enumerate() {
        assert_eq!(r.rank, k + 1, "rank at position {} must be {}", k, k + 1);
        assert!(r.rank >= 1 && r.rank <= n);
        assert!(!seen[r.rank], "duplicate rank {}", r.rank);
        seen[r.rank] = true;
    }
    for rank in 1..=n {
        assert!(seen[rank], "missing rank {}", rank);
    }
}

#[test]
fn ranks_are_dense_small_rosters() {
    for n in [1usize, 2, 3, 5, 8] {
        let results = run_battle(roster(n), 42);
        assert_dense_ranks(&results, n);
    }
}

#[test]
fn exactly_one_winner() {
    for seed in [0u64, 1, 7, 12345, u64::MAX] {
        let results = run_battle(roster(6), seed);
        let winners: Vec<&BattleResult> = results.iter().filter(|r| r.is_winner).collect();
        assert_eq!(winners.len(), 1);
        assert_eq!(winners[0].rank, 1);
        assert!(results[0].is_winner);
        for r in results.iter().skip(1) {
            assert!(!r.is_winner);
            assert!(r.rank != 1);
        }
    }
}

#[test]
fn winner_keeps_positive_hp_losers_do_not() {
    let results = run_battle(roster(10), 99);
    assert!(results[0].final_hp >= 1);
    for r in results.iter().skip(1) {
        assert!(r.final_hp <= 0);
    }
}

#[test]
fn single_character_roster_wins_untouched() {
    let results = run_battle(vec![human("Alice")], 5);
    assert_eq!(results.len(), 1);
    assert_eq!(results[0].rank, 1);
    assert!(results[0].is_winner);
    assert_eq!(results[0].name, "Alice");
    assert_eq!(results[0].final_hp, 100);
}

#[test]
fn empty_roster_gives_empty_results() {
    let results = run_battle(Vec::new(), 3);
    assert!(results.is_empty());
}

#[test]
fn full_capacity_roster_terminates() {
    let chars: Vec<Character> = (0..100).map(|i| fighter(&format!("C{}", i), 120, 5)).collect();
    let results = run_battle(chars, 2024);
    assert_dense_ranks(&results, 100);
}

#[test]
fn same_seed_reproduces_the_battle() {
    let a = run_battle(roster(20), 777);
    let b = run_battle(roster(20), 777);
    assert_eq!(a.len(), b.len());
    for (x, y) in a.iter().zip(b.iter()) {
        assert_eq!(x.name, y.name);
        assert_eq!(x.rank, y.rank);
        assert_eq!(x.final_hp, y.final_hp);
        assert_eq!(x.is_winner, y.is_winner);
    }
}

#[test]
fn results_names_come_from_the_roster() {
    let results = run_battle(roster(7), 31);
    let names: Vec<String> = (0..7).map(|i| format!("F{}", i)).collect();
    let mut remaining = names.clone();
    for r in &results {
        let pos = remaining.iter().position(|n| *n == r.name);
        assert!(pos.is_some(), "result name {} not a roster name", r.name);
        remaining.remove(pos.unwrap());
    }
    assert!(remaining.is_empty());
}

#[test]
fn two_mut_hands_out_distinct_slots() {
    let mut v = vec![10, 20, 30, 40];
    {
        let (a, b) = two_mut(&mut v, 1, 3);
        assert_eq!(*a, 20);
        assert_eq!(*b, 40);
        *a = 2;
        *b = 4;
    }
    assert_eq!(v, vec![10, 2, 30, 4]);
    {
        let (a, b) = two_mut(&mut v, 2, 0);
        assert_eq!(*a, 30);
        assert_eq!(*b, 10);
        *a += 1;
        *b += 1;
    }
    assert_eq!(v, vec![11, 2, 31, 4]);
}

#[test]
fn lcg_picks_stay_in_range_and_replay() {
    let mut a = Lcg::new(987654321);
    let mut b = Lcg::new(987654321);
    for bound in 1usize..50 {
        let x = a.next_below(bound);
        let y = b.next_below(bound);
        assert!(x < bound);
        assert_eq!(x, y);
    }
}
