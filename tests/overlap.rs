use boolean_expression::BDD;
use encoding_overlap::{find_overlapping_encoding, Encoding};
use std::collections::HashMap;

fn matches(e: &Encoding, w: u32) -> bool {
    w & e.mask == e.bits & e.mask
}

#[test]
fn test_some_overlaps() {
    assert_eq!(
        find_overlapping_encoding(&[
            Encoding {
                bits: 0b0101_0000,
                mask: 0b1111_0000,
            },
            Encoding {
                bits: 0b0100_0000,
                mask: 0b1100_0000,
            }
        ])
        .unwrap()
            & 0b1100_0000,
        0b0100_0000
    );
    assert_eq!(
        find_overlapping_encoding(&[
            Encoding {
                bits: 0b0101_0000,
                mask: 0b1111_0000,
            },
            Encoding {
                bits: 0b1100_0000,
                mask: 0b1100_0000,
            }
        ]),
        None,
    );
}

#[test]
fn empty_list_has_no_overlap() {
    assert_eq!(find_overlapping_encoding(&[]), None);
}

#[test]
fn single_unconstrained_encoding_has_no_overlap() {
    assert_eq!(find_overlapping_encoding(&[Encoding { bits: 0, mask: 0 }]), None);
}

#[test]
fn unconstrained_first_overlaps_anything() {
    let second = Encoding {
        bits: 0xdead_beef,
        mask: 0xffff_0f0f,
    };
    let w = find_overlapping_encoding(&[Encoding { bits: 0, mask: 0 }, second]).unwrap();
    assert!(matches(&second, w));
    assert_eq!(w & 0xffff_0f0f, 0xdead_0e0f);
}

#[test]
fn unconstrained_second_overlaps_earlier() {
    let first = Encoding {
        bits: 0x8000_0001,
        mask: 0x8000_0001,
    };
    let w = find_overlapping_encoding(&[first, Encoding { bits: 7, mask: 0 }]).unwrap();
    assert_eq!(w & 0x8000_0001, 0x8000_0001);
}

#[test]
fn exact_duplicates_overlap_with_low_bit_set() {
    let e = Encoding { bits: 0b1, mask: 0b1 };
    let w = find_overlapping_encoding(&[e, e]).unwrap();
    assert_eq!(w & 1, 1);
}

#[test]
fn fully_constrained_duplicate_gives_its_word() {
    let e = Encoding {
        bits: 0x1234_5678,
        mask: 0xffff_ffff,
    };
    assert_eq!(find_overlapping_encoding(&[e, e]), Some(0x1234_5678));
}

#[test]
fn bits_outside_mask_are_ignored() {
    let a = Encoding {
        bits: 0b1111,
        mask: 0b0011,
    };
    let b = Encoding {
        bits: 0b0011,
        mask: 0b0011,
    };
    let w = find_overlapping_encoding(&[a, b]).unwrap();
    assert_eq!(w & 0b0011, 0b0011);
}

#[test]
fn disjoint_opcodes_have_no_overlap() {
    let list: Vec<Encoding> = (0u32..16)
        .map(|op| Encoding {
            bits: op << 28,
            mask: 0xf000_0000,
        })
        .collect();
    assert_eq!(find_overlapping_encoding(&list), None);
}

#[test]
fn first_conflict_is_reported() {
    // The third encoding overlaps the first; the fourth would overlap the second.
    let list = [
        Encoding {
            bits: 0x0000_0000,
            mask: 0x0000_0003,
        },
        Encoding {
            bits: 0x0000_0001,
            mask: 0x0000_0003,
        },
        Encoding {
            bits: 0x0000_0010,
            mask: 0x0000_0013,
        },
        Encoding {
            bits: 0x0000_0101,
            mask: 0x0000_0103,
        },
    ];
    let w = find_overlapping_encoding(&list).unwrap();
    assert!(matches(&list[0], w));
    assert!(matches(&list[2], w));
    assert_eq!(w & 0x13, 0x10);
}

#[test]
fn witness_matches_two_encodings() {
    let list = [
        Encoding {
            bits: 0x00a0,
            mask: 0x0ff0,
        },
        Encoding {
            bits: 0x0500,
            mask: 0x0f00,
        },
        Encoding {
            bits: 0x05b0,
            mask: 0x0ff0,
        },
    ];
    assert_eq!(find_overlapping_encoding(&list[..2]), None);
    let w = find_overlapping_encoding(&list).unwrap();
    assert!(matches(&list[2], w));
    assert!(matches(&list[1], w));
    assert!(!matches(&list[0], w));
    assert_eq!(w & 0x0ff0, 0x05b0);
}

#[test]
fn duplicate_of_conflict_free_list_overlaps() {
    let mut list = vec![
        Encoding {
            bits: 0x1,
            mask: 0xf,
        },
        Encoding {
            bits: 0x2,
            mask: 0xf,
        },
        Encoding {
            bits: 0x30,
            mask: 0xff,
        },
    ];
    assert_eq!(find_overlapping_encoding(&list), None);
    list.push(list[1]);
    let w = find_overlapping_encoding(&list).unwrap();
    assert_eq!(w & 0xf, 0x2);
}

#[test]
fn adding_encodings_keeps_an_overlap() {
    let base = vec![
        Encoding {
            bits: 0x0,
            mask: 0x1,
        },
        Encoding {
            bits: 0x2,
            mask: 0x2,
        },
    ];
    assert!(find_overlapping_encoding(&base).is_some());
    let extra = Encoding {
        bits: 0x8000_0000,
        mask: 0x8000_0000,
    };
    let mut after = base.clone();
    after.push(extra);
    assert!(find_overlapping_encoding(&after).is_some());
    let mut before = vec![extra];
    before.extend(base.iter().copied());
    assert!(find_overlapping_encoding(&before).is_some());
}

#[test]
fn reordering_keeps_whether_an_overlap_exists() {
    let a = Encoding {
        bits: 0x10,
        mask: 0x30,
    };
    let b = Encoding {
        bits: 0x20,
        mask: 0x30,
    };
    let c = Encoding {
        bits: 0x11,
        mask: 0x11,
    };
    assert!(find_overlapping_encoding(&[a, b, c]).is_some());
    assert!(find_overlapping_encoding(&[c, b, a]).is_some());
    assert!(find_overlapping_encoding(&[b, c, a]).is_some());
    assert_eq!(find_overlapping_encoding(&[a, b]), None);
    assert_eq!(find_overlapping_encoding(&[b, a]), None);
}

#[test]
fn encoding_function_is_true_exactly_on_matching_words() {
    let e = Encoding {
        bits: 0b1010,
        mask: 0b0110,
    };
    let mut bdd: BDD<u32> = BDD::new();
    let f = e.to_bdd(&mut bdd);
    for w in 0u32..16 {
        let mut values = HashMap::new();
        for bit in 0u32..32 {
            values.insert(bit, w & (1 << bit) != 0);
        }
        assert_eq!(bdd.evaluate(f, &values), matches(&e, w));
    }
}
