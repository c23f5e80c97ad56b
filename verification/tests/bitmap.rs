use rrtt::bitmap::{ReadyBitmap, Strategy, FLAT_LIMIT, PRIORITY_LIMIT};

fn brute(bits: &[bool]) -> Option<usize> {
    bits.iter().position(|b| *b)
}

#[test]
fn layout_follows_the_number_of_priorities() {
    assert_eq!(Strategy::Flat, Strategy::for_priority_max(1));
    assert_eq!(Strategy::Flat, Strategy::for_priority_max(8));
    assert_eq!(Strategy::Flat, Strategy::for_priority_max(32));
    assert_eq!(Strategy::TwoLevel, Strategy::for_priority_max(33));
    assert_eq!(Strategy::TwoLevel, Strategy::for_priority_max(256));
    assert_eq!(32, FLAT_LIMIT);
    assert_eq!(256, PRIORITY_LIMIT);
    assert_eq!(32, Strategy::Flat.capacity());
    assert_eq!(256, Strategy::TwoLevel.capacity());
}

#[test]
fn new_bitmap_is_empty() {
    let cases = [
        (32, Strategy::Flat),
        (32, Strategy::TwoLevel),
        (256, Strategy::TwoLevel),
        (0, Strategy::Flat),
    ];
    for (slots, strategy) in cases {
        let map = ReadyBitmap::new(slots, strategy);
        assert_eq!(slots, map.slots());
        assert_eq!(strategy, map.strategy());
        assert_eq!(None, map.lowest_set());
        for i in 0..slots {
            assert!(!map.get(i));
        }
    }
}

#[test]
fn set_then_clear_every_index_in_both_layouts() {
    let cases = [
        (32, Strategy::Flat),
        (32, Strategy::TwoLevel),
        (256, Strategy::TwoLevel),
        (5, Strategy::Flat),
        (37, Strategy::TwoLevel),
    ];
    for (slots, strategy) in cases {
        let mut map = ReadyBitmap::new(slots, strategy);
        for i in 0..slots {
            map.set(i);
            assert!(map.get(i));
            assert_eq!(Some(i), map.lowest_set());
            map.clear(i);
            assert!(!map.get(i));
            assert_eq!(None, map.lowest_set());
        }
    }
}

#[test]
fn lowest_set_is_the_lowest_of_two() {
    let cases = [(32, Strategy::Flat), (32, Strategy::TwoLevel), (64, Strategy::TwoLevel)];
    for (slots, strategy) in cases {
        for i in 0..slots {
            for j in 0..slots {
                let mut map = ReadyBitmap::new(slots, strategy);
                map.set(i);
                map.set(j);
                assert_eq!(Some(i.min(j)), map.lowest_set());
                map.clear(i.min(j));
                if i == j {
                    assert_eq!(None, map.lowest_set());
                } else {
                    assert_eq!(Some(i.max(j)), map.lowest_set());
                }
            }
        }
    }
}

#[test]
fn two_level_search_matches_a_scan_of_every_combination_of_ten() {
    // Ten chosen priorities across the groups; every subset of them.
    let chosen = [0usize, 1, 7, 8, 15, 16, 63, 64, 200, 255];
    for combo in 0u32..(1 << chosen.len()) {
        let mut map = ReadyBitmap::new(256, Strategy::TwoLevel);
        let mut bits = vec![false; 256];
        for (k, p) in chosen.iter().enumerate() {
            if combo & (1 << k) != 0 {
                map.set(*p);
                bits[*p] = true;
            }
        }
        assert_eq!(brute(&bits), map.lowest_set());
    }
}

#[test]
fn both_layouts_agree_on_every_combination_of_eight() {
    for combo in 0u32..256 {
        let mut flat = ReadyBitmap::new(8, Strategy::Flat);
        let mut two = ReadyBitmap::new(8, Strategy::TwoLevel);
        let mut bits = vec![false; 8];
        for p in 0..8 {
            if combo & (1 << p) != 0 {
                flat.set(p);
                two.set(p);
                bits[p] = true;
            }
        }
        assert_eq!(brute(&bits), flat.lowest_set());
        assert_eq!(brute(&bits), two.lowest_set());
        for p in 0..8 {
            assert_eq!(bits[p], flat.get(p));
            assert_eq!(bits[p], two.get(p));
        }
    }
}

#[test]
fn walk_of_sets_and_clears_matches_a_plain_array() {
    let mut map = ReadyBitmap::new(200, Strategy::TwoLevel);
    let mut bits = vec![false; 200];
    let mut x: usize = 12345;
    for _ in 0..5000 {
        x = (x * 1103515245 + 12345) % 2147483648;
        let p = (x >> 8) % 200;
        if (x >> 5) % 2 == 0 {
            map.set(p);
            bits[p] = true;
        } else {
            map.clear(p);
            bits[p] = false;
        }
        assert_eq!(brute(&bits), map.lowest_set());
    }
}

#[test]
fn formula_group_times_eight_plus_bit() {
    let mut map = ReadyBitmap::new(256, Strategy::TwoLevel);
    map.set(8 * 5 + 3);
    assert_eq!(Some(43), map.lowest_set());
    map.set(8 * 5 + 1);
    assert_eq!(Some(41), map.lowest_set());
    map.set(8 * 2 + 7);
    assert_eq!(Some(23), map.lowest_set());
}

#[test]
fn setting_twice_and_clearing_a_clear_bit_are_harmless() {
    let mut map = ReadyBitmap::new(40, Strategy::TwoLevel);
    map.set(9);
    map.set(9);
    map.clear(10);
    assert_eq!(Some(9), map.lowest_set());
    map.clear(9);
    map.clear(9);
    assert_eq!(None, map.lowest_set());
}
