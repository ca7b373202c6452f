use game2048::block::BlockSize;

const RANKS: [BlockSize; 11] = [
    BlockSize::_2,
    BlockSize::_4,
    BlockSize::_8,
    BlockSize::_16,
    BlockSize::_32,
    BlockSize::_64,
    BlockSize::_128,
    BlockSize::_256,
    BlockSize::_512,
    BlockSize::_1024,
    BlockSize::_2048,
];

#[test]
fn labels_are_the_decimal_magnitudes() {
    let labels = ["2", "4", "8", "16", "32", "64", "128", "256", "512", "1024", "2048"];
    for (rank, label) in RANKS.iter().zip(labels.iter()) {
        assert_eq!(rank.to_string(), String::from(*label));
    }
}

#[test]
fn label_is_two_to_the_exponent() {
    for rank in RANKS.iter() {
        let magnitude: u32 = 1 << rank.exponent();
        assert_eq!(rank.to_string(), format!("{}", magnitude));
    }
}

#[test]
fn next_walks_the_progression() {
    for pair in RANKS.windows(2) {
        assert_eq!(pair[0].next(), Some(pair[1]));
    }
}

#[test]
fn top_rank_has_no_successor() {
    assert_eq!(BlockSize::_2048.next(), None);
}

#[test]
fn exponents_count_from_one() {
    for (place, rank) in RANKS.iter().enumerate() {
        assert_eq!(rank.exponent() as usize, place + 1);
    }
}

#[test]
fn successor_is_one_place_higher() {
    for rank in RANKS.iter() {
        if let Some(higher) = rank.next() {
            assert_eq!(higher.exponent(), rank.exponent() + 1);
        }
    }
}

#[test]
fn ranks_are_ordered_by_place() {
    for (i, a) in RANKS.iter().enumerate() {
        for (j, b) in RANKS.iter().enumerate() {
            assert_eq!(a < b, i < j);
            assert_eq!(a <= b, i <= j);
            assert_eq!(a > b, i > j);
            assert_eq!(a == b, i == j);
            assert_eq!(a.partial_cmp(b), i.partial_cmp(&j));
            assert_eq!(a.cmp(b), i.cmp(&j));
        }
    }
}

#[test]
fn equality_is_identity_of_rank() {
    assert_eq!(BlockSize::_16, BlockSize::_16);
    assert_ne!(BlockSize::_16, BlockSize::_32);
}
