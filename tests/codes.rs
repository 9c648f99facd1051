use std::collections::HashSet;

use string_puzzles::codes::{alphabet, code_less, CodeAssignment, CODE_LENGTH};
use string_puzzles::packs::{AllLevelPacks, Level, LevelPack, PackError, DEFAULT_WIN_MESSAGE};

fn assigned(seed: &str, n: usize) -> Vec<String> {
    let a = CodeAssignment::assign(seed, n).expect("codes ran out");
    assert_eq!(a.len(), n);
    (0..n).map(|i| a.code_at(i).to_string()).collect()
}

fn levels(n: usize) -> Vec<Level> {
    (0..n).map(|i| Level::new(&format!("L{i}"), "d", "l.lua")).collect()
}

fn pack(id: &str, n: usize) -> LevelPack {
    LevelPack::new(
        id.to_string(),
        format!("{id} pack"),
        "1.0.0".to_string(),
        "desc".to_string(),
        levels(n),
        None,
        id.to_string(),
    )
    .ok()
    .expect("pack refused")
}

#[test]
fn alphabet_excludes_ambiguous_letters() {
    let a = alphabet();
    assert_eq!(a.len(), 31);
    for c in ['I', 'O', 'A', 'E', 'U'] {
        assert!(!a.contains(&c));
    }
}

#[test]
fn codes_are_well_formed() {
    let a = alphabet();
    for code in assigned("demo-1.0.0", 20) {
        assert_eq!(code.chars().count(), CODE_LENGTH);
        assert!(code.chars().all(|c| a.contains(&c)));
    }
}

#[test]
fn codes_are_reproducible() {
    assert_eq!(assigned("pack.json", 10), assigned("pack.json", 10));
    assert_ne!(assigned("a-1.0.0", 5), assigned("b-1.0.0", 5));
}

#[test]
fn codes_are_pairwise_distinct() {
    let codes = assigned("many-1.0.0", 1000);
    let set: HashSet<&String> = codes.iter().collect();
    assert_eq!(set.len(), 1000);
}

#[test]
fn code_lookup_and_successor() {
    let a = CodeAssignment::assign("x", 3).unwrap();
    let c0 = a.code_at(0).to_string();
    let c2 = a.code_at(2).to_string();
    assert_eq!(a.ordinal_of(&c2), Some(2));
    assert_eq!(a.ordinal_of("??????"), None);
    assert_eq!(a.next_code(&c0), Some(a.code_at(1)));
    assert_eq!(a.next_code(&c2), None);
    assert_eq!(CodeAssignment::empty().len(), 0);
}

#[test]
fn pack_without_levels_is_refused() {
    let r = LevelPack::new(
        "p".to_string(),
        "n".to_string(),
        "1.0.0".to_string(),
        "d".to_string(),
        Vec::new(),
        None,
        "p".to_string(),
    );
    assert!(matches!(r, Err(PackError::NoLevels)));
}

#[test]
fn pack_codes_follow_id_and_version() {
    let p = pack("demo", 4);
    let expected = assigned("demo-1.0.0", 4);
    assert_eq!(p.get_starting_code(), expected[0]);
    for i in 0..4 {
        assert_eq!(p.level_code(i), expected[i]);
        let (num, level) = p.get_level_from_code(&expected[i]).unwrap();
        assert_eq!(num, i);
        assert_eq!(level.name(), format!("L{i}"));
    }
    assert_eq!(p.get_next_level_code(&expected[0]), Some(expected[1].as_str()));
    assert_eq!(p.get_next_level_code(&expected[3]), None);
    assert!(p.get_level_from_code("nope").is_none());
}

#[test]
fn pack_win_message_defaults() {
    let p = pack("w", 1);
    assert_eq!(p.win_message(), DEFAULT_WIN_MESSAGE);
    let q = LevelPack::new(
        "w".to_string(),
        "n".to_string(),
        "2".to_string(),
        "d".to_string(),
        levels(1),
        Some("Well done".to_string()),
        "f".to_string(),
    )
    .ok()
    .unwrap();
    assert_eq!(q.win_message(), "Well done");
    assert_eq!(q.version(), "2");
    assert_eq!(q.parent_folder(), "f");
    assert_eq!(q.id(), "w");
    assert_eq!(q.name(), "n");
    assert_eq!(q.description(), "d");
}

#[test]
fn level_accessors() {
    let l = Level::new("Swap", "Swap letters", "swap.lua");
    assert_eq!(l.name(), "Swap");
    assert_eq!(l.description(), "Swap letters");
    assert_eq!(l.lua_file(), "swap.lua");
}

#[test]
fn all_packs_lookup() {
    let a = pack("a", 2);
    let b = pack("b", 3);
    let level_b = b.level_code(1).to_string();
    let all = AllLevelPacks::from_packs(vec![a, b]).unwrap();
    assert_eq!(all.len(), 2);
    let pack_codes = assigned("pack.json", 2);
    let mut listed = pack_codes.clone();
    listed.sort();
    for k in 0..2 {
        let (code, p) = all.pack_at(k);
        assert_eq!(code, listed[k]);
        let expected_id = if listed[k] == pack_codes[0] { "a" } else { "b" };
        assert_eq!(p.id(), expected_id);
    }
    assert_eq!(all.get_level_pack(&pack_codes[0]).unwrap().id(), "a");
    assert!(all.get_level_pack("zzz").is_none());

    let hits = all.get_level(&level_b, None);
    assert_eq!(hits.len(), 1);
    assert_eq!(hits[0].0, pack_codes[1]);
    assert_eq!(hits[0].1, 2);
    assert_eq!(hits[0].2.name(), "L1");
    let hits = all.get_level(&level_b, Some(&pack_codes[1]));
    assert_eq!(hits.len(), 1);
    assert_eq!((hits[0].0, hits[0].1), (pack_codes[1].as_str(), 2));
    assert!(all.get_level(&level_b, Some(&pack_codes[0])).is_empty());
    assert!(all.get_level("nope", None).is_empty());
    assert_eq!(AllLevelPacks::empty().len(), 0);
}

#[test]
fn code_order_is_lexicographic() {
    assert!(code_less("ABC", "ABD"));
    assert!(code_less("AB", "ABC"));
    assert!(!code_less("ABC", "ABC"));
    assert!(!code_less("B", "A1"));
    assert!(code_less("1", "B"));
    assert!(code_less("", "0"));
}

#[test]
fn many_packs_listed_in_code_order() {
    let packs: Vec<LevelPack> = (0..12).map(|i| pack(&format!("p{i}"), 1)).collect();
    let all = AllLevelPacks::from_packs(packs).unwrap();
    let listed: Vec<String> = (0..all.len()).map(|k| all.pack_at(k).0.to_string()).collect();
    let mut sorted = listed.clone();
    sorted.sort();
    assert_eq!(listed, sorted);
    let mut ids: Vec<String> = (0..all.len()).map(|k| all.pack_at(k).1.id().to_string()).collect();
    ids.sort();
    let mut expected: Vec<String> = (0..12).map(|i| format!("p{i}")).collect();
    expected.sort();
    assert_eq!(ids, expected);
}

#[test]
fn same_pack_twice_is_ambiguous() {
    let all = AllLevelPacks::from_packs(vec![pack("same", 2), pack("same", 2)]).unwrap();
    let code = all.pack_at(0).1.get_starting_code().to_string();
    let hits = all.get_level(&code, None);
    assert_eq!(hits.len(), 2);
    assert_eq!(hits[0].1, 1);
    assert_eq!(hits[1].1, 1);
    assert_ne!(hits[0].0, hits[1].0);
}

#[test]
fn single_position_always_assigned() {
    for seed in ["", "x", "pack.json", "solo-9.9"] {
        let a = CodeAssignment::assign(seed, 1).expect("one position never collides");
        assert_eq!(a.len(), 1);
        assert!(CodeAssignment::assign(seed, 0).is_some());
    }
    assert!(AllLevelPacks::from_packs(vec![pack("one", 1)]).is_some());
    assert!(AllLevelPacks::from_packs(Vec::new()).is_some());
}

#[test]
fn offer_refuses_taken_codes() {
    let mut a = CodeAssignment::empty();
    assert!(a.offer("BCDFGH".to_string()));
    assert!(a.offer("123456".to_string()));
    assert!(!a.offer("BCDFGH".to_string()));
    assert_eq!(a.len(), 2);
    assert_eq!(a.code_at(0), "BCDFGH");
    assert_eq!(a.code_at(1), "123456");
    assert_eq!(a.ordinal_of("123456"), Some(1));
}
