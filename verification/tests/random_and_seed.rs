use jumpstart::utils::{
    get_random_number, random_next, random_step, set_seed, try_get_seed, SeedError, RAND_MAX, SEED_POLL_LIMIT,
};
use std::cell::Cell;

#[test]
fn random_step_from_zero() {
    assert_eq!(random_step(0), (1, 0));
}

#[test]
fn random_sequence_from_default_seed() {
    let mut seed: u64 = 1;
    assert_eq!(random_next(&mut seed), 1481765933);
    assert_eq!(seed, 0x5851_f42d_4c95_7f2e);
    assert_eq!(random_next(&mut seed), 1085377743);
    assert_eq!(seed, 0xc0b1_8ccf_4e25_2d17);
    assert_eq!(random_next(&mut seed), 1270216262);
}

#[test]
fn random_numbers_stay_below_rand_max() {
    let mut seed: u64 = 0xFFFF_FFFF_FFFF_FFFF;
    for _ in 0..1000 {
        let v = random_next(&mut seed);
        assert!(v <= RAND_MAX);
    }
}

#[test]
fn get_random_number_is_non_negative_int() {
    let mut seed: u64 = 1;
    assert_eq!(get_random_number(&mut seed), 1481765933);
    assert_eq!(get_random_number(&mut seed), 1085377743);
}

#[test]
fn set_seed_sign_extends() {
    let mut seed: u64 = 99;
    set_seed(&mut seed, -5);
    assert_eq!(seed, 0xFFFF_FFFF_FFFF_FFFB);
    assert_eq!(random_next(&mut seed), 1181104925);
    set_seed(&mut seed, 1);
    assert_eq!(random_next(&mut seed), 1481765933);
}

#[test]
fn seed_ready_returns_entropy() {
    let calls = Cell::new(0u32);
    let r = try_get_seed(|| {
        calls.set(calls.get() + 1);
        0x8000_1234
    });
    assert_eq!(r, Ok(0x1234));
    assert_eq!(calls.get(), 1);
}

#[test]
fn seed_waits_through_bist_and_wait() {
    let calls = Cell::new(0u32);
    let r = try_get_seed(|| {
        let n = calls.get();
        calls.set(n + 1);
        match n {
            0 => 0x0000_0007,
            1 => 0x4000_0000,
            _ => 0x8000_00FF,
        }
    });
    assert_eq!(r, Ok(0xFF));
    assert_eq!(calls.get(), 3);
}

#[test]
fn seed_dead_is_an_error() {
    let r = try_get_seed(|| 0xC000_0055);
    assert_eq!(r, Err(SeedError::Dead));
}

#[test]
fn seed_gives_up_after_poll_limit() {
    let calls = Cell::new(0u32);
    let r = try_get_seed(|| {
        calls.set(calls.get() + 1);
        0x4000_ABCD
    });
    assert_eq!(r, Ok(0xABCD));
    assert_eq!(calls.get(), SEED_POLL_LIMIT);
}
