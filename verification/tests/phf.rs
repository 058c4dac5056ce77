use findpkg::phf::{
    displace, generate_hash, get_index, hash, phf_hash_slice, place_buckets, try_generate_hash,
    Disp, Hashes, PhfHash,
};
use findpkg::Error;

#[test]
fn displace_wraps() {
    assert_eq!(displace(0, 0, 0, 0), 0);
    assert_eq!(displace(3, 4, 5, 6), 25);
    assert_eq!(displace(0xffff_ffff, 1, 1, 0), 0);
    assert_eq!(displace(0xffff_ffff, 0xffff_ffff, 0xffff_ffff, 0xffff_ffff), 0xffff_ffff);
    assert_eq!(displace(0x1_0000, 7, 0x1_0000, 9), 16);
}

#[test]
fn hash_splits_the_digest() {
    assert_eq!(hash(&b"dash"[..], 42), Hashes { g: 3281014718, f1: 3247648365, f2: 1249245118 });
    assert_eq!(hash(&b""[..], 0), Hashes { g: 557093725, f1: 1641657357, f2: 838546179 });
    assert_eq!(hash("abc", 7), Hashes { g: 2652441109, f1: 4294074831, f2: 4125950790 });
    assert_eq!(hash(&&b"abc"[..], 7), hash("abc", 7));
}

#[test]
fn get_index_displaces_by_bucket() {
    let disps = [Disp(1, 0), Disp(1, 3)];
    assert_eq!(get_index(&Hashes { g: 0, f1: 1, f2: 0 }, &disps, 7), 1);
    assert_eq!(get_index(&Hashes { g: 1, f1: 1, f2: 1 }, &disps, 7), 5);
    assert_eq!(get_index(&Hashes { g: 3, f1: 2, f2: 5 }, &disps, 7), 3);
    assert_eq!(get_index(&Hashes { g: 4, f1: 0xffff_ffff, f2: 2 }, &disps, 7), 1);
}

#[test]
fn place_buckets_takes_the_first_fit() {
    let hashes = [
        Hashes { g: 0, f1: 1, f2: 0 },
        Hashes { g: 0, f1: 2, f2: 0 },
        Hashes { g: 0, f1: 3, f2: 1 },
        Hashes { g: 1, f1: 1, f2: 1 },
        Hashes { g: 1, f1: 2, f2: 5 },
        Hashes { g: 1, f1: 0, f2: 3 },
        Hashes { g: 0, f1: 7, f2: 7 },
    ];
    let (disps, map) = place_buckets(&hashes).unwrap();
    assert_eq!(disps, vec![Disp(1, 0), Disp(1, 3)]);
    assert_eq!(map, vec![6, 0, 1, 4, 2, 3, 5]);
    for (i, h) in hashes.iter().enumerate() {
        assert_eq!(map[get_index(h, &disps, map.len()) as usize], i);
    }
}

#[test]
fn place_buckets_small_cases() {
    assert_eq!(place_buckets(&[]), Some((vec![], vec![])));
    assert_eq!(place_buckets(&[Hashes { g: 9, f1: 9, f2: 9 }]), Some((vec![Disp(0, 0)], vec![0])));
    let same = Hashes { g: 0, f1: 0, f2: 0 };
    assert_eq!(place_buckets(&[same, same]), None);
    let hashes = [
        Hashes { g: 0, f1: 1, f2: 0 },
        Hashes { g: 0, f1: 2, f2: 3 },
        Hashes { g: 0, f1: 5, f2: 5 },
        Hashes { g: 0, f1: 9, f2: 1 },
        Hashes { g: 0, f1: 4, f2: 4 },
        Hashes { g: 1, f1: 1, f2: 1 },
    ];
    assert_eq!(
        place_buckets(&hashes),
        Some((vec![Disp(0, 0), Disp(0, 1)], vec![0, 3, 5, 1, 4, 2]))
    );
}

#[test]
fn generated_hash_is_perfect() {
    let entries: Vec<String> = (0..20000).map(|i| format!("command-{}", i)).collect();
    let keys: Vec<&str> = entries.iter().map(|s| s.as_str()).collect();
    let state = generate_hash(&keys).unwrap();
    assert_eq!(state.map.len(), keys.len());
    assert_eq!(state.disps.len(), 4000);
    let mut seen = vec![false; keys.len()];
    for (i, key) in keys.iter().enumerate() {
        let slot = get_index(&hash(key, state.key), &state.disps, state.map.len()) as usize;
        assert_eq!(state.map[slot], i);
        assert!(!seen[slot]);
        seen[slot] = true;
    }
}

#[test]
fn generate_hash_is_repeatable() {
    let keys = ["a", "b", "c", "d", "e", "f", "g"];
    let first = generate_hash(&keys).unwrap();
    let second = generate_hash(&keys).unwrap();
    assert_eq!(first.key, second.key);
    assert_eq!(first.disps, second.disps);
    assert_eq!(first.map, second.map);
    let again = try_generate_hash(&keys, first.key).unwrap();
    assert_eq!(again.disps, first.disps);
    assert_eq!(again.map, first.map);
}

#[test]
fn equal_keys_have_no_perfect_hash() {
    let keys = ["twin", "twin"];
    assert!(try_generate_hash(&keys, 0).is_none());
    assert!(try_generate_hash(&keys, 1234567890).is_none());
    assert_eq!(generate_hash(&keys).err(), Some(Error::PhfFailure));
}

#[test]
fn no_keys_have_an_empty_hash() {
    let keys: [&str; 0] = [];
    let state = generate_hash(&keys).unwrap();
    assert!(state.disps.is_empty());
    assert!(state.map.is_empty());
}

#[test]
fn hundred_thousand_keys_have_a_perfect_hash() {
    let entries: Vec<String> = (0..100000).map(|i| format!("bin{}", i)).collect();
    let keys: Vec<&[u8]> = entries.iter().map(|s| s.as_bytes()).collect();
    let state = generate_hash(&keys).unwrap();
    assert_eq!(state.disps.len(), 20000);
    let mut seen = vec![false; keys.len()];
    for slot in &state.map {
        assert!(!seen[*slot]);
        seen[*slot] = true;
    }
    for (i, key) in keys.iter().enumerate() {
        let slot = get_index(&hash(key, state.key), &state.disps, state.map.len()) as usize;
        assert_eq!(state.map[slot], i);
    }
}

#[test]
fn phf_hash_feeds_the_bytes() {
    let mut state = vec![1u8];
    b"ab"[..].phf_hash(&mut state);
    "cd".phf_hash(&mut state);
    (&"e").phf_hash(&mut state);
    assert_eq!(state, b"\x01abcde");
    let mut state = Vec::new();
    phf_hash_slice(&["ab", "", "c"], &mut state);
    assert_eq!(state, b"abc");
}
