use raytracer::random::{
    random_u32, random_words, set_random_seed, squares64, tile_seed, xorshift32, xorshift64,
    RandomSource, DEFAULT_SEED,
};

#[test]
fn xorshift32_known_outputs() {
    let mut state: u32 = 2463534242;
    assert_eq!(xorshift32(&mut state), 723471715);
    assert_eq!(state, 723471715);
    assert_eq!(xorshift32(&mut state), 2497366906);
    assert_eq!(xorshift32(&mut state), 2064144800);
    assert_eq!(state, 2064144800);
}

#[test]
fn xorshift32_from_one() {
    let mut state: u32 = 1;
    let mut seen = Vec::new();
    for _ in 0..5 {
        seen.push(xorshift32(&mut state));
    }
    assert_eq!(seen, vec![270369, 67634689, 2647435461, 307599695, 2398689233]);
}

#[test]
fn xorshift32_zero_stays_zero() {
    let mut state: u32 = 0;
    for _ in 0..10 {
        assert_eq!(xorshift32(&mut state), 0);
        assert_eq!(state, 0);
    }
}

#[test]
fn xorshift32_nonzero_stays_nonzero() {
    let mut state: u32 = 0x8000_0000;
    for _ in 0..10_000 {
        assert_ne!(xorshift32(&mut state), 0);
    }
    let mut state: u32 = u32::MAX;
    for _ in 0..10_000 {
        assert_ne!(xorshift32(&mut state), 0);
    }
}

#[test]
fn xorshift64_known_outputs() {
    let mut state: u64 = 88172645463325252;
    assert_eq!(xorshift64(&mut state), 8748534153485358512);
    assert_eq!(state, 8748534153485358512);
    assert_eq!(xorshift64(&mut state), 3040900993826735515);
    assert_eq!(xorshift64(&mut state), 3453997556048239312);
}

#[test]
fn xorshift64_from_one_and_zero() {
    let mut state: u64 = 1;
    assert_eq!(xorshift64(&mut state), 1082269761);
    assert_eq!(xorshift64(&mut state), 1152992998833853505);
    assert_eq!(xorshift64(&mut state), 11177516664432764457);
    let mut zero: u64 = 0;
    assert_eq!(xorshift64(&mut zero), 0);
    assert_eq!(zero, 0);
}

#[test]
fn squares64_known_outputs() {
    let key: u64 = 0x548c9decbce65297;
    assert_eq!(squares64(0, key), 3952053150598706085);
    assert_eq!(squares64(1, key), 10684533792529506218);
    assert_eq!(squares64(2, key), 14459075848319685823);
    assert_eq!(squares64(3, key), 3876585987581790221);
    assert_eq!(squares64(u64::MAX, key), 4847287876544065568);
}

#[test]
fn squares64_small_arguments() {
    assert_eq!(squares64(5, 0), 0);
    assert_eq!(squares64(0, 5), 5);
    assert_eq!(squares64(1, 1), 2);
    assert_eq!(squares64(2, 3), 9);
}

#[test]
fn squares64_is_a_function_of_its_arguments() {
    let key: u64 = 0xc58efd154ce32f6d;
    for ctr in [0u64, 1, 17, u64::MAX / 3, u64::MAX] {
        assert_eq!(squares64(ctr, key), squares64(ctr, key));
    }
    assert_ne!(squares64(7, key), squares64(8, key));
}

#[test]
fn source_starts_from_default_seed() {
    let mut source = RandomSource::new();
    assert_eq!(DEFAULT_SEED, 8589392);
    assert_eq!(source.state(), 8589392);
    assert_eq!(random_u32(&mut source), 866976660);
    assert_eq!(source.state(), 866976660);
    assert_eq!(random_u32(&mut source), 3894838555);
    assert_eq!(random_u32(&mut source), 674943609);
    assert_eq!(random_u32(&mut source), 1020044067);
    assert_eq!(random_u32(&mut source), 3183114647);
}

#[test]
fn seeding_restarts_the_stream() {
    let mut source = RandomSource::new();
    random_u32(&mut source);
    random_u32(&mut source);
    set_random_seed(&mut source, 2463534242);
    assert_eq!(source.state(), 2463534242);
    assert_eq!(random_u32(&mut source), 723471715);
    set_random_seed(&mut source, 2463534242);
    assert_eq!(random_u32(&mut source), 723471715);
}

#[test]
fn same_seed_same_sequence() {
    for seed in [1u32, 42, 8589392, 0xdead_beef, u32::MAX] {
        let mut a = RandomSource::new();
        let mut b = RandomSource::new();
        set_random_seed(&mut a, seed);
        set_random_seed(&mut b, seed);
        let first: Vec<u32> = (0..1000).map(|_| random_u32(&mut a)).collect();
        let second: Vec<u32> = (0..1000).map(|_| random_u32(&mut b)).collect();
        assert_eq!(first, second);
        assert_eq!(a.state(), b.state());
    }
}

#[test]
fn different_seeds_differ() {
    let mut a = RandomSource::new();
    let mut b = RandomSource::new();
    set_random_seed(&mut a, 1);
    set_random_seed(&mut b, 2);
    assert_ne!(random_u32(&mut a), random_u32(&mut b));
}

#[test]
fn words_match_single_draws() {
    let mut a = RandomSource::new();
    let mut b = RandomSource::new();
    let words = random_words(&mut a, 5);
    assert_eq!(words, vec![866976660, 3894838555, 674943609, 1020044067, 3183114647]);
    let singles: Vec<u32> = (0..5).map(|_| random_u32(&mut b)).collect();
    assert_eq!(words, singles);
    assert_eq!(a.state(), b.state());
    assert_eq!(a.state(), 3183114647);
}

#[test]
fn words_can_be_drawn_in_pieces() {
    let mut whole = RandomSource::new();
    let mut pieces = RandomSource::new();
    set_random_seed(&mut whole, 12345);
    set_random_seed(&mut pieces, 12345);
    let all = random_words(&mut whole, 64);
    let mut joined = random_words(&mut pieces, 20);
    joined.extend(random_words(&mut pieces, 0));
    joined.extend(random_words(&mut pieces, 44));
    assert_eq!(all, joined);
    assert_eq!(whole.state(), pieces.state());
}

#[test]
fn no_words_leave_the_source_untouched() {
    let mut source = RandomSource::new();
    set_random_seed(&mut source, 99);
    assert_eq!(random_words(&mut source, 0), Vec::<u32>::new());
    assert_eq!(source.state(), 99);
}

#[test]
fn xorshift32_step_is_one_to_one_on_a_sample() {
    let mut seen = std::collections::HashSet::new();
    for start in 0u32..20_000 {
        let mut state = start;
        assert!(seen.insert(xorshift32(&mut state)));
    }
    for start in (u32::MAX - 20_000)..=u32::MAX {
        let mut state = start;
        assert!(seen.insert(xorshift32(&mut state)));
    }
}

#[test]
fn tile_seeds_of_the_default_render() {
    let seeds: Vec<u32> = (0..5).map(|i| tile_seed(DEFAULT_SEED, i)).collect();
    assert_eq!(seeds, vec![330118945, 2451143406, 4190839609, 691168509, 1012933999]);
}

#[test]
fn tile_seeds_for_other_base_seeds() {
    assert_eq!(tile_seed(1, 0), 2749185422);
    assert_eq!(tile_seed(1, 1), 845829269);
    assert_eq!(tile_seed(42, 245), 3903756285);
    assert_eq!(tile_seed(42, 246), 1872499200);
    assert_eq!(tile_seed(u32::MAX, u64::MAX), 1734432592);
}

#[test]
fn tile_seed_falls_back_to_the_default_seed() {
    for index in [0u64, 1, 3, 246, u64::MAX] {
        assert_eq!(tile_seed(0, index), DEFAULT_SEED);
    }
}

#[test]
fn tile_seeds_are_reproducible_and_never_zero() {
    let mut seen = std::collections::HashSet::new();
    for index in 0..247u64 {
        let seed = tile_seed(DEFAULT_SEED, index);
        assert_ne!(seed, 0);
        assert_eq!(seed, tile_seed(DEFAULT_SEED, index));
        seen.insert(seed);
    }
    assert_eq!(seen.len(), 247);
}

#[test]
fn a_tile_source_gives_the_same_words_whenever_it_runs() {
    let mut early = RandomSource::new();
    let mut late = RandomSource::new();
    random_words(&mut late, 1000);
    set_random_seed(&mut early, tile_seed(DEFAULT_SEED, 17));
    set_random_seed(&mut late, tile_seed(DEFAULT_SEED, 17));
    assert_eq!(random_words(&mut early, 100), random_words(&mut late, 100));
}
