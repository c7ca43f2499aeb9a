use backend::attacks::{calculate_attacks, BISHOP_DIRS, ROOK_DIRS};
use backend::magic::{
    bishop_relevancy, blocker_attacks, candidate_size, check_magic, dense_array, gen_rng, improves,
    calc_size, magic_attacks, rook_relevancy, stored_entries,
    search_shifts, squares_to_bitboard, trim_trailing_nones, BlockerTables, Magic, MAX_ARR_SIZE,
    SHIFT_START,
};

fn bit(s: u32) -> u64 {
    1u64 << s
}

fn small_tables(entries: Vec<(u64, u64)>) -> BlockerTables {
    let mut bishop: Vec<Vec<(u64, u64)>> = (0..64).map(|_| Vec::new()).collect();
    bishop[0] = entries;
    let rook: Vec<Vec<(u64, u64)>> = (0..64).map(|_| Vec::new()).collect();
    BlockerTables { bishop, rook }
}

#[test]
fn constants() {
    assert_eq!(SHIFT_START, 13);
    assert_eq!(MAX_ARR_SIZE, 8192);
}

#[test]
fn relevancy_masks() {
    assert_eq!(bishop_relevancy(0), 0x40201008040200);
    assert_eq!(bishop_relevancy(27), 0x40221400142200);
    assert_eq!(rook_relevancy(0), 0x101010101017e);
    assert_eq!(rook_relevancy(27), 0x8080876080800);
    assert_eq!(rook_relevancy(63), 0x7e80808080808000);
}

#[test]
fn blocker_attacks_enumerates_subsets() {
    let t = blocker_attacks(0, bit(9) | bit(18), &BISHOP_DIRS);
    assert_eq!(
        t,
        vec![
            (0x40000, 0x40200),
            (0x200, 0x200),
            (0x0, 0x8040201008040200),
            (0x40200, 0x200)
        ]
    );
    let full = blocker_attacks(0, rook_relevancy(0), &ROOK_DIRS);
    assert_eq!(full.len(), 4096);
    for (b, a) in &full {
        assert_eq!(b & !rook_relevancy(0), 0);
        assert_eq!(*a, calculate_attacks(0, *b, &ROOK_DIRS));
    }
    assert_eq!(blocker_attacks(3, 0, &ROOK_DIRS), vec![(0, calculate_attacks(3, 0, &ROOK_DIRS))]);
}

#[test]
fn blocker_attacks_meets_each_subset_once() {
    let rel = bishop_relevancy(27);
    let t = blocker_attacks(27, rel, &BISHOP_DIRS);
    let mut seen: Vec<u64> = t.iter().map(|(b, _)| *b).collect();
    seen.sort();
    seen.dedup();
    assert_eq!(seen.len(), t.len());
    assert_eq!(t.len(), 1 << rel.count_ones());
    assert_eq!(t.last().unwrap().0, rel);
    assert_eq!(t[t.len() - 2].0, 0);
}

#[test]
fn check_magic_without_clash() {
    let tables = small_tables(vec![(1, 5), (2, 5), (3, 7)]);
    let arr = check_magic(1 << 62, 0, 62, false, &tables).unwrap();
    assert_eq!(arr.len(), 8192);
    assert_eq!(&arr[..5], &[None, Some(5), Some(5), Some(7), None]);
    assert!(arr[4..].iter().all(|x| x.is_none()));
    assert_eq!(trim_trailing_nones(arr), vec![None, Some(5), Some(5), Some(7)]);
}

#[test]
fn check_magic_with_clash() {
    let tables = small_tables(vec![(1, 5), (2, 5), (3, 7)]);
    assert!(check_magic(0, 0, 62, false, &tables).is_none());
    // equal attacks may share an index
    let same = small_tables(vec![(1, 5), (2, 5)]);
    assert_eq!(check_magic(0, 0, 62, false, &same).unwrap()[0], Some(5));
}

#[test]
fn check_magic_on_real_tables() {
    let tables = BlockerTables::new();
    assert_eq!(tables.bishop.len(), 64);
    assert_eq!(tables.rook.len(), 64);
    assert_eq!(tables.bishop[0].len(), 64);
    assert_eq!(tables.rook[0].len(), 4096);
    let magic = 0x2902020404041140u64;
    let arr = check_magic(magic, 0, 58, false, &tables).unwrap();
    assert_eq!(arr[0], Some(0x8040201008040200));
    for (b, a) in &tables.bishop[0] {
        assert_eq!(arr[(b.wrapping_mul(magic) >> 58) as usize], Some(*a));
    }
    assert!(check_magic(magic, 0, 59, false, &tables).is_none());
    assert_eq!(trim_trailing_nones(check_magic(magic, 0, 55, false, &tables).unwrap()).len(), 509);
}

#[test]
fn search_shifts_keeps_the_shortest() {
    let tables = BlockerTables::new();
    let magic = 0x2902020404041140u64;
    let found = search_shifts(magic, 0, false, 8192, 51, &tables).unwrap();
    assert_eq!(found.magic, magic);
    assert_eq!(found.mask, bishop_relevancy(0));
    assert_eq!(found.shift, 58);
    assert_eq!(found.array.len(), 64);
    assert_eq!(found.array[0], Some(9241421688590303744));
    assert_eq!(found.array[1], Some(512));
    for (b, a) in &tables.bishop[0] {
        assert_eq!(found.array[(b.wrapping_mul(magic) >> found.shift) as usize], Some(*a));
    }
    assert!(search_shifts(magic, 0, false, 64, 51, &tables).is_none());
    assert!(search_shifts(magic, 0, false, 8192, 60, &tables).is_none());
    assert!(search_shifts(magic, 0, false, 8192, 62, &tables).is_none());
}

#[test]
fn trim_trailing_nones_cases() {
    assert_eq!(trim_trailing_nones(vec![None, None]), Vec::<Option<u64>>::new());
    assert_eq!(trim_trailing_nones(vec![]), Vec::<Option<u64>>::new());
    assert_eq!(trim_trailing_nones(vec![Some(1), None, Some(2)]), vec![Some(1), None, Some(2)]);
}

#[test]
fn improves_cases() {
    assert!(improves(&None, 100));
    let m = Magic { magic: 1, mask: 2, shift: 60, array: vec![None; 10] };
    assert!(improves(&Some(Magic { array: vec![None; 10], ..m }), 9));
    let m2 = Magic { magic: 1, mask: 2, shift: 60, array: vec![None; 10] };
    assert!(!improves(&Some(m2), 10));
}

#[test]
fn dense_array_writes_zero_for_none() {
    assert_eq!(dense_array(&vec![Some(3), None, Some(0), None]), vec![3, 0, 0, 0]);
    assert!(dense_array(&vec![]).is_empty());
}

#[test]
fn squares_to_bitboard_unions() {
    assert_eq!(squares_to_bitboard(&vec![0, 63, 5]), 1 | (1 << 63) | (1 << 5));
    assert_eq!(squares_to_bitboard(&vec![]), 0);
}

#[test]
fn gen_rng_draws_fewer_than_all_squares() {
    let mut rng = rand::rng();
    let mut any = false;
    for _ in 0..50 {
        let m = gen_rng(&mut rng);
        assert!(m.count_ones() < 64);
        any |= m != 0;
    }
    assert!(any);
}

#[test]
fn candidate_size_is_the_mean() {
    assert_eq!(candidate_size(0, 0, 0), 0);
    assert_eq!(candidate_size(63, 63, 63), 63);
    assert_eq!(candidate_size(1, 1, 2), 1);
    assert_eq!(candidate_size(10, 20, 31), 20);
    assert_eq!(candidate_size(0, 0, 2), 0);
}

#[test]
fn standing_direction_needs_a_blocker_on_the_square() {
    assert_eq!(calculate_attacks(27, bit(27), &[(0, 0)]), bit(27));
    assert_eq!(
        calculate_attacks(27, bit(27), &[(0, 0), (1, 0)]),
        bit(27) | bit(35) | bit(43) | bit(51) | bit(59)
    );
}

const OCCUPANCIES: [u64; 6] =
    [0, 0xffff00000000ffff, 0x0000_1234_5678_9abc, u64::MAX, (1 << 9) | (1 << 18), 0x0081_4224_1800_0042];

#[test]
fn relevant_blockers_decide_attacks() {
    for sq in [0usize, 7, 27, 36, 56, 63] {
        for occ in OCCUPANCIES {
            assert_eq!(
                calculate_attacks(sq, occ, &ROOK_DIRS),
                calculate_attacks(sq, occ & rook_relevancy(sq), &ROOK_DIRS)
            );
            assert_eq!(
                calculate_attacks(sq, occ, &BISHOP_DIRS),
                calculate_attacks(sq, occ & bishop_relevancy(sq), &BISHOP_DIRS)
            );
        }
    }
}

#[test]
fn magic_lookup_matches_the_ray_walk() {
    let tables = BlockerTables::new();
    let magic = 0x2902020404041140u64;
    let found = search_shifts(magic, 0, false, 8192, 51, &tables).unwrap();
    for occ in OCCUPANCIES {
        assert_eq!(magic_attacks(&found, 0, false, occ), calculate_attacks(0, occ, &BISHOP_DIRS));
    }
    assert_eq!(magic_attacks(&found, 0, false, 1 << 18), bit(9) | bit(18));
}

fn sample_magic(magic: u64, array: Vec<Option<u64>>) -> Magic {
    Magic { magic, mask: 0x7e, shift: 58, array }
}

#[test]
fn table_sizes() {
    let word = std::mem::size_of::<usize>();
    let table = vec![Some(sample_magic(3, vec![Some(1), None, Some(3)])), None, Some(sample_magic(5, vec![]))];
    assert_eq!(calc_size(&table), Some(2 * (16 + 3 * word) + 3 * 8));
    assert_eq!(calc_size(&[]), Some(0));
    assert_eq!(calc_size(&[None, None]), Some(0));
}

#[test]
fn stored_entries_write_empty_slots_as_zero() {
    let table = vec![Some(sample_magic(3, vec![Some(1), None, Some(3)])), Some(sample_magic(9, vec![None]))];
    let entries = stored_entries(&table).unwrap();
    assert_eq!(entries.len(), 2);
    assert_eq!(entries[0].magic, 3);
    assert_eq!(entries[0].mask, 0x7e);
    assert_eq!(entries[0].shift, 58);
    assert_eq!(entries[0].array, vec![1, 0, 3]);
    assert_eq!(entries[1].array, vec![0]);
    let missing = vec![Some(sample_magic(3, vec![])), None];
    assert!(stored_entries(&missing).is_none());
}
