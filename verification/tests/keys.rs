use tile_game::keys::{all_keys, key_from_name, key_from_upper, key_name, GameKey};

#[test]
fn every_key_has_its_name() {
    assert_eq!(key_name(GameKey::W), "W");
    assert_eq!(key_name(GameKey::A), "A");
    assert_eq!(key_name(GameKey::S), "S");
    assert_eq!(key_name(GameKey::D), "D");
    assert_eq!(key_name(GameKey::Q), "Q");
    assert_eq!(key_name(GameKey::E), "E");
    assert_eq!(key_name(GameKey::R), "R");
    assert_eq!(key_name(GameKey::T), "T");
    assert_eq!(key_name(GameKey::Y), "Y");
    assert_eq!(key_name(GameKey::N), "N");
    assert_eq!(key_name(GameKey::M), "M");
    assert_eq!(key_name(GameKey::F), "F");
    assert_eq!(key_name(GameKey::G), "G");
    assert_eq!(key_name(GameKey::H), "H");
    assert_eq!(key_name(GameKey::Z), "Z");
    assert_eq!(key_name(GameKey::X), "X");
    assert_eq!(key_name(GameKey::C), "C");
    assert_eq!(key_name(GameKey::Space), "SPACE");
    assert_eq!(key_name(GameKey::Enter), "ENTER");
}

#[test]
fn there_are_nineteen_keys() {
    let keys = all_keys();
    assert_eq!(keys.len(), 19);
    for (i, a) in keys.iter().enumerate() {
        for b in keys.iter().skip(i + 1) {
            assert_ne!(a, b);
            assert_ne!(key_name(*a), key_name(*b));
        }
    }
}

#[test]
fn a_name_gives_back_its_key() {
    for key in all_keys() {
        assert_eq!(key_from_upper(key_name(key)), Some(key));
        assert_eq!(key_from_name(key_name(key)), Some(key));
    }
}

#[test]
fn names_are_read_in_any_case() {
    assert_eq!(key_from_name("w"), Some(GameKey::W));
    assert_eq!(key_from_name("W"), Some(GameKey::W));
    assert_eq!(key_from_name("space"), Some(GameKey::Space));
    assert_eq!(key_from_name("Space"), Some(GameKey::Space));
    assert_eq!(key_from_name("eNtEr"), Some(GameKey::Enter));
}

#[test]
fn names_in_capitals_are_read_as_they_stand() {
    assert_eq!(key_from_upper("W"), Some(GameKey::W));
    assert_eq!(key_from_upper("w"), None);
    assert_eq!(key_from_upper("SPACE"), Some(GameKey::Space));
    assert_eq!(key_from_upper("space"), None);
}

#[test]
fn other_names_give_no_key() {
    assert_eq!(key_from_name(""), None);
    assert_eq!(key_from_name("B"), None);
    assert_eq!(key_from_name("WW"), None);
    assert_eq!(key_from_name(" W"), None);
    assert_eq!(key_from_name("SPACEBAR"), None);
    assert_eq!(key_from_name("ESCAPE"), None);
    assert_eq!(key_from_name("ENTE"), None);
    assert_eq!(key_from_name("1"), None);
}
