use packed_flags::B128;
use packed_flags::B32;
use packed_flags::B64;
use packed_flags::Blong;
use packed_flags::Bsize;
use packed_flags::FlagLs;
use packed_flags::FlagLsError;

#[test]
fn build_mutate_scenario() {
    let mut flag_ls = B32::default();
    flag_ls.insert(0, true);
    flag_ls.insert(0, false);
    flag_ls.insert(2, false);
    assert_eq!(flag_ls, B32::from_iter(vec![false, true, false]));
    assert_eq!(flag_ls.len(), 3);
    assert!(flag_ls.remove(1));
    assert_eq!(flag_ls, B32::from_iter(vec![false, false]));
    flag_ls.set(1, true);
    assert_eq!(flag_ls, B32::from_iter(vec![false, true]));
}

#[test]
fn insert_remove_round_trip() {
    let start = vec![true, false, true, true, false];
    for index in 0..=start.len() {
        let mut ls = Blong::from_iter(start.clone());
        ls.insert(index, true);
        assert_eq!(ls.len(), 6);
        assert!(ls.remove(index));
        assert_eq!(ls, Blong::from_iter(start.clone()));

        let mut ls = B64::from_iter(start.clone());
        ls.insert(index, true);
        assert!(ls.remove(index));
        assert_eq!(ls, B64::from_iter(start.clone()));
    }
}

#[test]
fn long_word_boundary() {
    let mut ls = Blong::all_true(64);
    ls.push(false);
    assert_eq!(ls.len(), 65);
    assert_eq!(ls.get(63), Some(true));
    assert_eq!(ls.get(64), Some(false));
    if usize::BITS == 64 {
        let words = ls.clone().as_inner();
        assert_eq!(words.len(), 2);
        assert_eq!(words[0], usize::MAX);
        assert_eq!(words[1], 0);
    }
    assert_eq!(ls.pop(), Some(false));
    assert_eq!(ls.len(), 64);
    assert_eq!(ls, Blong::all_true(64));
}

#[test]
fn long_push_pop_across_words() {
    let mut ls = Blong::all_true(64);
    ls.push(true);
    assert_eq!(ls.len(), 65);
    assert_eq!(ls.get(64), Some(true));
    assert_eq!(ls.pop(), Some(true));
    assert_eq!(ls.len(), 64);
    assert_eq!(ls, Blong::all_true(64));
}

#[test]
fn long_insert_carries_across_words() {
    // 65 flags: only the last one set; inserting at the front shifts it up
    let mut flags = vec![false; 65];
    flags[64] = true;
    let mut ls = Blong::from_iter(flags);
    ls.insert(0, true);
    assert_eq!(ls.len(), 66);
    assert_eq!(ls.get(0), Some(true));
    assert_eq!(ls.get(64), Some(false));
    assert_eq!(ls.get(65), Some(true));
    // removing at the front borrows the bit back down
    assert!(ls.remove(0));
    assert_eq!(ls.len(), 65);
    assert_eq!(ls.get(64), Some(true));
    assert_eq!(ls.get(0), Some(false));
}

#[test]
fn above_length_bits_stay_clear() {
    let mut ls = B32::all_true(10);
    ls.set_len(4);
    assert_eq!(ls.as_inner(), 0b1111u32);

    let mut ls = B64::all_true(10);
    ls.set_len(4);
    assert_eq!(ls.as_inner(), 0b1111u64);

    let raw = B32::initialize(u32::MAX, 3);
    assert_eq!(raw.as_inner(), 0b111u32);

    let mut ls = Blong::all_true(65);
    ls.set_len(64);
    ls.set_len(65);
    assert_eq!(ls.get(64), Some(false));
    let words = ls.as_inner();
    let top = words[words.len() - 1];
    assert_eq!(top, 0);
}

#[test]
fn bitwise_operators_commute() {
    let a = B32::from_iter(vec![true, false, true]);
    let b = B32::from_iter(vec![true, true, false, false, true]);
    assert_eq!(a.bitand(b), b.bitand(a));
    assert_eq!(a.bitor(b), b.bitor(a));
    assert_eq!(a.bitxor(b), b.bitxor(a));
    assert_eq!(a.bitand(b).len(), 5);
    assert_eq!(a.bitor(b).len(), 5);
    assert_eq!(a.bitxor(b).len(), 5);
    assert_eq!(a.bitor(b), B32::from_iter(vec![true, true, true, false, true]));
    assert_eq!(a.bitand(b), B32::from_iter(vec![true, false, false, false, false]));
    assert_eq!(a.bitxor(b), B32::from_iter(vec![false, true, true, false, true]));
}

#[test]
fn bitwise_identity_lists() {
    let a = B64::from_iter(vec![true, false, true, false]);
    assert_eq!(a.bitand(B64::all_false(4)), B64::all_false(4));
    assert_eq!(a.bitor(B64::all_true(4)), B64::all_true(4));

    let mut al = Blong::from_iter(vec![true, false, true, false]);
    al.bitand_assign(&Blong::all_false(4));
    assert_eq!(al, Blong::all_false(4));
    let mut ol = Blong::from_iter(vec![true, false, true, false]);
    ol.bitor_assign(&Blong::all_true(4));
    assert_eq!(ol, Blong::all_true(4));
}

#[test]
fn long_bitwise_mixed_lengths() {
    let long_part = Blong::all_true(100);
    let short_part = Blong::from_iter(vec![true, false, true]);

    let mut anded = long_part.clone();
    anded.bitand_assign(&short_part);
    assert_eq!(anded.len(), 100);
    assert_eq!(anded.get(0), Some(true));
    assert_eq!(anded.get(1), Some(false));
    assert_eq!(anded.get(2), Some(true));
    for i in 3..100 {
        assert_eq!(anded.get(i), Some(false));
    }

    let mut ored = short_part.clone();
    ored.bitor_assign(&long_part);
    assert_eq!(ored.len(), 100);
    for i in 0..100 {
        assert_eq!(ored.get(i), Some(true));
    }

    let mut xored = short_part.clone();
    xored.bitxor_assign(&long_part);
    assert_eq!(xored.len(), 100);
    assert_eq!(xored.get(0), Some(false));
    assert_eq!(xored.get(1), Some(true));
    assert_eq!(xored.get(2), Some(false));
    for i in 3..100 {
        assert_eq!(xored.get(i), Some(true));
    }
}

#[test]
fn negation_and_set_difference() {
    let a = B32::from_iter(vec![true, false, true]);
    assert_eq!(a.not(), B32::from_iter(vec![false, true, false]));
    let b = B32::from_iter(vec![true, true, false]);
    assert_eq!(a.sub(b), B32::from_iter(vec![false, false, true]));

    let al = Blong::from_iter(vec![true, false, true]);
    assert_eq!(al.clone().not(), Blong::from_iter(vec![false, true, false]));
    let mut dl = al;
    dl.sub_assign(&Blong::from_iter(vec![true, true, false]));
    assert_eq!(dl, Blong::from_iter(vec![false, false, true]));

    // complementing a full-width list keeps the length
    let full = B32::all_true(32);
    assert_eq!(full.not(), B32::all_false(32));
}

#[test]
fn shifts_move_flags_and_lengths() {
    let a = B32::from_iter(vec![true, false, true]);
    assert_eq!(a.shl(2), B32::from_iter(vec![false, false, true, false, true]));
    assert_eq!(a.shr(1), B32::from_iter(vec![false, true]));
    assert_eq!(a.shr(3).len(), 0);
    let mut b = a;
    b.shl_assign(1);
    assert_eq!(b, B32::from_iter(vec![false, true, false, true]));
    b.shr_assign(1);
    assert_eq!(b, a);
    // the length caps at the maximum when shifting up
    let full = B32::all_true(31);
    assert_eq!(full.shl(4).len(), 32);
}

#[test]
fn narrowing_fails_exactly_when_too_long() {
    let small = B64::all_true(32);
    let narrowed = B32::try_from_b64(small).unwrap();
    assert_eq!(narrowed, B32::all_true(32));

    let big = B64::all_true(33);
    assert_eq!(
        B32::try_from_b64(big),
        Err(FlagLsError::MaximumLengthExceeded { mx_len: 32, attempt_len: 33 })
    );

    let long_ls = Blong::all_true(100);
    let widened = B128::try_from_blong(long_ls.clone()).unwrap();
    assert_eq!(widened.len(), 100);
    assert_eq!(
        B64::try_from_blong(long_ls),
        Err(FlagLsError::MaximumLengthExceeded { mx_len: 64, attempt_len: 100 })
    );
}

#[test]
fn widening_preserves_content() {
    let src = B32::from_iter(vec![true, false, true, true]);
    let wide64 = B64::from_b32(src);
    assert_eq!(wide64.len(), 4);
    assert_eq!(wide64, B64::from_iter(vec![true, false, true, true]));
    let wide128 = B128::from_b32(src);
    assert_eq!(wide128, B128::from_iter(vec![true, false, true, true]));
    let long_ls = Blong::from_b32(src);
    assert_eq!(long_ls, Blong::from_iter(vec![true, false, true, true]));
    // a round trip back down is exact
    assert_eq!(B32::try_from_blong(long_ls), Ok(src));
}

#[test]
fn long_round_trip_through_fixed() {
    let mut flags = vec![false; 90];
    flags[0] = true;
    flags[63] = true;
    flags[64] = true;
    flags[89] = true;
    let long_ls = Blong::from_iter(flags.clone());
    let wide = B128::try_from_blong(long_ls.clone()).unwrap();
    assert_eq!(Blong::from_b128(wide), long_ls);
}

#[test]
fn checked_entry_points_report_errors() {
    let mut ls = B32::default();
    assert_eq!(ls.try_insert(0, true), Ok(()));
    assert_eq!(
        ls.try_insert(2, false),
        Err(FlagLsError::IndexOutOfBounds { idx: 2, len: 1 })
    );
    assert_eq!(ls, B32::from_iter(vec![true]));

    let mut full = B32::all_true(32);
    assert_eq!(
        full.try_push(false),
        Err(FlagLsError::MaximumLengthExceeded { mx_len: 32, attempt_len: 33 })
    );
    assert_eq!(full, B32::all_true(32));
    assert_eq!(
        full.try_insert(0, false),
        Err(FlagLsError::MaximumLengthExceeded { mx_len: 32, attempt_len: 33 })
    );

    let mut ls = B64::from_iter(vec![false, true, false]);
    assert_eq!(ls.try_remove(1), Some(true));
    assert_eq!(ls.try_remove(2), None);
    assert_eq!(ls, B64::from_iter(vec![false, false]));

    assert_eq!(
        B32::try_from_iter(vec![true; 33]),
        Err(FlagLsError::MaximumLengthExceeded { mx_len: 32, attempt_len: 33 })
    );
}

#[test]
fn builders_have_requested_length() {
    let t = Bsize::all_true(10);
    assert_eq!(t.len(), 10);
    for i in 0..10 {
        assert_eq!(t.get(i), Some(true));
    }
    let f = Bsize::all_false(10);
    assert_eq!(f.len(), 10);
    for i in 0..10 {
        assert_eq!(f.get(i), Some(false));
    }
    let lt = Blong::all_true(70);
    assert_eq!(lt.len(), 70);
    for i in 0..70 {
        assert_eq!(lt.get(i), Some(true));
    }
}

#[test]
fn from_iter_reproduces_sequence() {
    let mut flags = vec![false; 70];
    for i in 0..70 {
        flags[i] = i % 3 == 0;
    }
    let ls = Blong::from_iter(flags.clone());
    let mut itr = ls.iter();
    let mut collected: Vec<bool> = Vec::new();
    while let Some(flag) = itr.next() {
        collected.push(flag);
    }
    assert_eq!(collected, flags);
}

#[test]
fn double_ended_iteration() {
    let ls = B64::from_iter(vec![true, false, true]);
    let mut itr = ls.iter();
    assert_eq!(itr.size_hint(), (3, Some(3)));
    assert_eq!(itr.next_back(), Some(true));
    assert_eq!(itr.next(), Some(true));
    assert_eq!(itr.size_hint(), (1, Some(1)));
    assert_eq!(itr.next_back(), Some(false));
    assert_eq!(itr.next(), None);
    assert_eq!(itr.next_back(), None);
}

#[test]
fn set_len_grows_with_false() {
    let mut flag_ls = B64::all_true(4);
    flag_ls.set_len(6);
    assert_eq!(flag_ls, B64::from_iter(vec![true, true, true, true, false, false]));

    let mut long_ls = Blong::all_true(4);
    long_ls.set_len(70);
    assert_eq!(long_ls.len(), 70);
    assert_eq!(long_ls.get(3), Some(true));
    assert_eq!(long_ls.get(4), Some(false));
    assert_eq!(long_ls.get(69), Some(false));
}

#[test]
fn truncate_only_shortens() {
    let mut flag_ls = B64::from_iter(vec![false, true, false, true]);
    flag_ls.truncate(2);
    assert_eq!(flag_ls, B64::from_iter(vec![false, true]));
    flag_ls.truncate(3);
    assert_eq!(flag_ls, B64::from_iter(vec![false, true]));

    let mut long_ls = Blong::all_true(80);
    long_ls.truncate(2);
    assert_eq!(long_ls, Blong::all_true(2));
}

#[test]
fn raw_word_round_trip() {
    let ls = B32::from_iter(vec![false, true, false, true, false, true, false, true]);
    let raw = ls.as_inner();
    assert_eq!(raw, 0b1010_1010u32);
    let rebuilt = B32::initialize(raw, 8);
    assert_eq!(rebuilt, ls);
    // initialize masks stray bits above the length away
    let masked = B32::initialize(0xFFu32, 4);
    assert_eq!(masked.as_inner(), 0xFu32);

    let long_ls = Blong::all_true(70);
    let len = long_ls.len();
    let words = long_ls.as_inner();
    let rebuilt = Blong::initialize(words, len);
    assert_eq!(rebuilt, Blong::all_true(70));
    // a length reaching past the words extends with false flags
    let short = Blong::initialize(vec![0b1usize], 66);
    assert_eq!(short.len(), 66);
    assert_eq!(short.get(0), Some(true));
    assert_eq!(short.get(65), Some(false));
}
