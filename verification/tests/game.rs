//! Tests of the game-facing pieces: the `hit` callback table, steering,
//! the resource ledger and the saturating payload arithmetic.

use polyphys::COORD_LIMIT;
use polyphys::SCALE;
use polyphys::contact::HitType;
use polyphys::contact::hit;
use polyphys::control::SteeringDirection;
use polyphys::control::SteeringKeys;
use polyphys::fixed::cadd;
use polyphys::fixed::sat_add64;
use polyphys::physics::CollisionResponse;
use polyphys::progression::ResourceType;
use polyphys::progression::UpgradeManager;
use polyphys::progression::upgrade_costs;

#[test]
fn player_hit_by_asteroid_takes_one_damage_unit() {
    let mut one = HitType::Player { dmgp: 50 * SCALE, dmg_takenp: 0 };
    let two = HitType::Asteroid { dmg: 100 * SCALE, dmg_taken: 0 };
    assert_eq!(hit(&mut one, &two), CollisionResponse::Collide);
    assert_eq!(one, HitType::Player { dmgp: 50 * SCALE, dmg_takenp: SCALE });
}

#[test]
fn asteroid_hit_by_player_takes_player_damage() {
    let mut one = HitType::Asteroid { dmg: 100 * SCALE, dmg_taken: 3 };
    let two = HitType::Player { dmgp: 50 * SCALE, dmg_takenp: 0 };
    assert_eq!(hit(&mut one, &two), CollisionResponse::Collide);
    assert_eq!(one, HitType::Asteroid { dmg: 100 * SCALE, dmg_taken: 50 * SCALE + 3 });
}

#[test]
fn bullet_hitting_asteroid_spends_a_bounce() {
    let mut one = HitType::Bullet { dmgb: 10 * SCALE, bounce: 2 };
    let two = HitType::Asteroid { dmg: 0, dmg_taken: 0 };
    assert_eq!(hit(&mut one, &two), CollisionResponse::Collide);
    assert_eq!(one, HitType::Bullet { dmgb: 10 * SCALE, bounce: 1 });
}

#[test]
fn asteroid_hit_by_bullet_takes_bullet_damage() {
    let mut one = HitType::Asteroid { dmg: 0, dmg_taken: 5 };
    let two = HitType::Bullet { dmgb: 10 * SCALE, bounce: 1 };
    assert_eq!(hit(&mut one, &two), CollisionResponse::Collide);
    assert_eq!(one, HitType::Asteroid { dmg: 0, dmg_taken: 10 * SCALE + 5 });
}

#[test]
fn bullets_pass_players_and_each_other() {
    let mut bullet = HitType::Bullet { dmgb: 1, bounce: 1 };
    let player = HitType::Player { dmgp: 1, dmg_takenp: 0 };
    assert_eq!(hit(&mut bullet, &player), CollisionResponse::Pass);
    assert_eq!(bullet, HitType::Bullet { dmgb: 1, bounce: 1 });
    let mut player2 = player;
    let other_bullet = HitType::Bullet { dmgb: 1, bounce: 1 };
    assert_eq!(hit(&mut player2, &other_bullet), CollisionResponse::Pass);
    let mut b1 = HitType::Bullet { dmgb: 1, bounce: 1 };
    assert_eq!(hit(&mut b1, &other_bullet), CollisionResponse::Pass);
}

#[test]
fn asteroids_collide_with_each_other_and_inert_pairs_pass() {
    let mut a = HitType::Asteroid { dmg: 0, dmg_taken: 0 };
    let b = HitType::Asteroid { dmg: 0, dmg_taken: 0 };
    assert_eq!(hit(&mut a, &b), CollisionResponse::Collide);
    assert_eq!(a, HitType::Asteroid { dmg: 0, dmg_taken: 0 });
    let mut n = HitType::Inert;
    assert_eq!(hit(&mut n, &b), CollisionResponse::Pass);
}

#[test]
fn hit_agrees_from_both_sides() {
    // every ordered pair of entity kinds answers symmetrically, with the
    // second side judging the first side's committed update
    let kinds = [
        HitType::Player { dmgp: 7, dmg_takenp: 1 },
        HitType::Asteroid { dmg: 9, dmg_taken: 2 },
        HitType::Bullet { dmgb: 3, bounce: 4 },
        HitType::Inert,
    ];
    for one in kinds.iter() {
        for two in kinds.iter() {
            let mut first = *one;
            let r1 = hit(&mut first, two);
            let mut second = *two;
            let r2 = hit(&mut second, &first);
            assert_eq!(r1, r2, "{:?} vs {:?}", one, two);
        }
    }
}

#[test]
fn steering_direction_table() {
    let mut keys = SteeringKeys { left: true, right: false, forward: false };
    assert_eq!(keys.direction(), SteeringDirection::Left);
    keys = SteeringKeys { left: false, right: true, forward: true };
    assert_eq!(keys.direction(), SteeringDirection::Right);
    keys = SteeringKeys { left: true, right: true, forward: false };
    assert_eq!(keys.direction(), SteeringDirection::Straight);
    keys = SteeringKeys { left: false, right: false, forward: true };
    assert_eq!(keys.direction(), SteeringDirection::Straight);
}

#[test]
fn fresh_ledger_affords_nothing() {
    let ledger = UpgradeManager::new();
    assert_eq!(ledger.count_possible_upgrades(), 0);
    assert_eq!(ledger.resource(ResourceType::Mars), 0);
}

#[test]
fn gathered_resources_unlock_upgrades() {
    let mut ledger = UpgradeManager::new();
    ledger.add_resource(ResourceType::Mars, 100);
    // exactly one catalogue entry asks for 100 Mars or less
    assert_eq!(ledger.count_possible_upgrades(), 1);
    ledger.add_resource(ResourceType::Mars, 150);
    // 250 Mars affords the 100, 180 and 250 Mars entries
    assert_eq!(ledger.count_possible_upgrades(), 3);
    ledger.add_resource(ResourceType::Luna, 150);
    assert_eq!(ledger.count_possible_upgrades(), 4);
}

#[test]
fn buying_an_upgrade_debits_its_resource() {
    let mut ledger = UpgradeManager::new();
    ledger.add_resource(ResourceType::Mars, 120);
    // entry 1 costs 100 Mars
    assert!(ledger.spend_on_upgrade(1));
    assert_eq!(ledger.resource(ResourceType::Mars), 20);
    // the ledger does not guard against overspending and goes negative
    assert!(ledger.spend_on_upgrade(1));
    assert_eq!(ledger.resource(ResourceType::Mars), -80);
    // an out-of-catalogue index changes nothing
    assert!(!ledger.spend_on_upgrade(upgrade_costs().len()));
    assert_eq!(ledger.resource(ResourceType::Mars), -80);
}

#[test]
fn stored_scalars_clamp_payload_counters_saturate() {
    assert_eq!(cadd(COORD_LIMIT, COORD_LIMIT), COORD_LIMIT);
    assert_eq!(cadd(-COORD_LIMIT, -COORD_LIMIT), -COORD_LIMIT);
    assert_eq!(cadd(5, -9), -4);
    assert_eq!(sat_add64(i64::MAX, 1), i64::MAX);
    assert_eq!(sat_add64(i64::MIN, -1), i64::MIN);
    assert_eq!(sat_add64(40, 2), 42);
}
