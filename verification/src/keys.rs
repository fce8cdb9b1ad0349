//! The keys that a timeline can name, and their names.

use vstd::prelude::*;
use vstd::string::StrSliceExecFns;

verus! {

/// A key that a response in a timeline can be bound to.
#[derive(Clone, Copy, Debug, PartialEq, Eq, Structural, Hash)]
pub enum GameKey {
    W,
    A,
    S,
    D,
    Q,
    E,
    R,
    T,
    Y,
    N,
    M,
    F,
    G,
    H,
    Z,
    X,
    C,
    Space,
    Enter,
}

/// The name under which a key is written, in capitals.
pub open spec fn spec_key_name(key: GameKey) -> Seq<char> {
    match key {
        GameKey::W => "W"@,
        GameKey::A => "A"@,
        GameKey::S => "S"@,
        GameKey::D => "D"@,
        GameKey::Q => "Q"@,
        GameKey::E => "E"@,
        GameKey::R => "R"@,
        GameKey::T => "T"@,
        GameKey::Y => "Y"@,
        GameKey::N => "N"@,
        GameKey::M => "M"@,
        GameKey::F => "F"@,
        GameKey::G => "G"@,
        GameKey::H => "H"@,
        GameKey::Z => "Z"@,
        GameKey::X => "X"@,
        GameKey::C => "C"@,
        GameKey::Space => "SPACE"@,
        GameKey::Enter => "ENTER"@,
    }
}

/// Whether `found` is the key that is written `upper`: the key with that
/// name, or none where no key has it.
pub open spec fn is_key_named(found: Option<GameKey>, upper: Seq<char>) -> bool {
    match found {
        Some(key) => upper == spec_key_name(key),
        None => forall|key: GameKey| upper != #[trigger] spec_key_name(key),
    }
}

/// The text of `s` in capitals, as `str::to_uppercase` gives it.
pub uninterp spec fn spec_to_uppercase(s: Seq<char>) -> Seq<char>;

/// Calls `str::to_uppercase`. Nothing is claimed of the result but that it
/// depends on the text alone.
#[verifier::external_body]
fn to_uppercase(s: &str) -> (upper: String)
    ensures
        upper@ == spec_to_uppercase(s@),
{
    s.to_uppercase()
}

/// No two keys have the same name, and every name is what is written here.
pub proof fn lemma_key_names(a: GameKey, b: GameKey)
    ensures
        spec_key_name(a) == spec_key_name(b) ==> a == b,
        spec_key_name(a).len() == 1 || spec_key_name(a).len() == 5,
{
    reveal_strlit("W");
    reveal_strlit("A");
    reveal_strlit("S");
    reveal_strlit("D");
    reveal_strlit("Q");
    reveal_strlit("E");
    reveal_strlit("R");
    reveal_strlit("T");
    reveal_strlit("Y");
    reveal_strlit("N");
    reveal_strlit("M");
    reveal_strlit("F");
    reveal_strlit("G");
    reveal_strlit("H");
    reveal_strlit("Z");
    reveal_strlit("X");
    reveal_strlit("C");
    reveal_strlit("SPACE");
    reveal_strlit("ENTER");
    if spec_key_name(a) == spec_key_name(b) {
        assert(spec_key_name(a).len() == spec_key_name(b).len());
        assert(spec_key_name(a)[0] == spec_key_name(b)[0]);
    }
}

/// Whether two texts are the same.
fn same_text(a: &str, b: &str) -> (same: bool)
    ensures
        same == (a@ == b@),
{
    let n = a.unicode_len();
    if n != b.unicode_len() {
        return false;
    }
    let mut i: usize = 0;
    while i < n
        invariant
            i <= n,
            n == a@.len(),
            n == b@.len(),
            forall|k: int| 0 <= k < i ==> a@[k] == b@[k],
        decreases n - i,
    {
        if a.get_char(i) != b.get_char(i) {
            return false;
        }
        i += 1;
    }
    assert(a@ =~= b@);
    true
}

/// The name under which a key is written.
pub fn key_name(key: GameKey) -> (name: &'static str)
    ensures
        name@ == spec_key_name(key),
{
    match key {
        GameKey::W => "W",
        GameKey::A => "A",
        GameKey::S => "S",
        GameKey::D => "D",
        GameKey::Q => "Q",
        GameKey::E => "E",
        GameKey::R => "R",
        GameKey::T => "T",
        GameKey::Y => "Y",
        GameKey::N => "N",
        GameKey::M => "M",
        GameKey::F => "F",
        GameKey::G => "G",
        GameKey::H => "H",
        GameKey::Z => "Z",
        GameKey::X => "X",
        GameKey::C => "C",
        GameKey::Space => "SPACE",
        GameKey::Enter => "ENTER",
    }
}

/// All the keys, in the order in which their names are tried.
pub fn all_keys() -> (keys: Vec<GameKey>)
    ensures
        forall|key: GameKey| keys@.contains(key),
{
    let keys = vec![
        GameKey::W,
        GameKey::A,
        GameKey::S,
        GameKey::D,
        GameKey::Q,
        GameKey::E,
        GameKey::R,
        GameKey::T,
        GameKey::Y,
        GameKey::N,
        GameKey::M,
        GameKey::F,
        GameKey::G,
        GameKey::H,
        GameKey::Z,
        GameKey::X,
        GameKey::C,
        GameKey::Space,
        GameKey::Enter,
    ];
    proof {
        assert forall|key: GameKey| keys@.contains(key) by {
            let i: int = match key {
                GameKey::W => 0,
                GameKey::A => 1,
                GameKey::S => 2,
                GameKey::D => 3,
                GameKey::Q => 4,
                GameKey::E => 5,
                GameKey::R => 6,
                GameKey::T => 7,
                GameKey::Y => 8,
                GameKey::N => 9,
                GameKey::M => 10,
                GameKey::F => 11,
                GameKey::G => 12,
                GameKey::H => 13,
                GameKey::Z => 14,
                GameKey::X => 15,
                GameKey::C => 16,
                GameKey::Space => 17,
                GameKey::Enter => 18,
            };
            assert(keys@[i] == key);
        }
    }
    keys
}

/// The key that is written `upper`, which is a name in capitals.
pub fn key_from_upper(upper: &str) -> (found: Option<GameKey>)
    ensures
        is_key_named(found, upper@),
{
    let keys = all_keys();
    let mut i: usize = 0;
    while i < keys.len()
        invariant
            i <= keys@.len(),
            forall|key: GameKey| keys@.contains(key),
            forall|k: int| 0 <= k < i ==> upper@ != spec_key_name(#[trigger] keys@[k]),
        decreases keys.len() - i,
    {
        if same_text(upper, key_name(keys[i])) {
            return Some(keys[i]);
        }
        i += 1;
    }
    proof {
        assert forall|key: GameKey| upper@ != #[trigger] spec_key_name(key) by {
            assert(keys@.contains(key));
            let k = choose|k: int| 0 <= k < keys@.len() && keys@[k] == key;
            assert(upper@ != spec_key_name(keys@[k]));
        }
    }
    None
}

/// The key that is written `name`, in capitals or not.
pub fn key_from_name(name: &str) -> (found: Option<GameKey>)
    ensures
        is_key_named(found, spec_to_uppercase(name@)),
{
    let upper = to_uppercase(name);
    key_from_upper(upper.as_str())
}

} // verus!
