//! The key/mode value model: a musical key is a tonic pitch class in
//! `[0, 11]` together with a major/minor mode, with cyclic tonic
//! arithmetic and the `"<tonic 1-12><A|B>"` textual encoding.

use vstd::prelude::*;
use vstd::string::*;
use vstd::arithmetic::div_mod::{
    lemma_add_mod_noop, lemma_add_mod_noop_right, lemma_fundamental_div_mod,
    lemma_fundamental_div_mod_converse, lemma_small_mod,
};

pub mod graph_ext;
pub mod search;
pub mod transition;

verus! {

/// The major/minor quality of a key. Encodes to a single letter:
/// `"A"` for `Minor`, `"B"` for `Major`.
#[derive(Copy, Clone, PartialEq, Eq, Structural, Debug, Hash)]
pub enum Mode {
    Minor,
    Major,
}

impl Mode {
    /// The opposite mode.
    pub open spec fn spec_swap(self) -> Mode {
        match self {
            Mode::Minor => Mode::Major,
            Mode::Major => Mode::Minor,
        }
    }

    /// Toggles between `Minor` and `Major`; its own inverse.
    pub fn swap(self) -> (r: Mode)
        ensures
            r == self.spec_swap(),
    {
        match self {
            Mode::Minor => Mode::Major,
            Mode::Major => Mode::Minor,
        }
    }
}

/// The single error kind of this library: a key string that does not
/// match the `"<tonic 1-12><A|B>"` format.
#[derive(Copy, Clone, PartialEq, Eq, Structural, Debug)]
pub enum ScaleError {
    InvalidScaleString,
}

/// One of the 24 positions of the Camelot wheel.
#[derive(Copy, Clone, PartialEq, Eq, Structural, Debug, Hash)]
pub struct Key {
    pub tonic: usize,
    pub mode: Mode,
}

/// Euclidean remainder: the result of `mod_cyclic(num, modulus)` is
/// always in `[0, modulus)`, also for negative `num`.
pub fn mod_cyclic(num: isize, modulus: usize) -> (r: isize)
    requires
        1 <= modulus <= (isize::MAX as usize),
    ensures
        r == (num as int) % (modulus as int),
        0 <= r < modulus,
{
    if num >= 0 {
        let r = (num as usize) % modulus;
        r as isize
    } else {
        // num == -(n + 1), so num = m * (-(n/m) - 1) + (m - 1 - n % m).
        let n = (-(num + 1)) as usize;
        let q = n % modulus;
        proof {
            let m = modulus as int;
            let nn = n as int;
            lemma_fundamental_div_mod(nn, m);
            assert(0 <= nn % m < m && (-(nn / m) - 1) * m + (m - 1 - nn % m) == -(m * (nn / m))
                - 1 - nn % m) by (nonlinear_arith)
                requires m > 0 && nn >= 0;
            lemma_fundamental_div_mod_converse(num as int, m, -(nn / m) - 1, m - 1 - (nn % m));
        }
        (modulus - 1 - q) as isize
    }
}

impl Key {
    /// A key is well formed when its tonic lies on the 12-position wheel.
    pub open spec fn wf(self) -> bool {
        self.tonic < 12
    }

    /// The key with the same tonic and the opposite mode.
    pub open spec fn spec_swap_kind(self) -> Key {
        Key { tonic: self.tonic, mode: self.mode.spec_swap() }
    }

    /// The key whose tonic is shifted by `amount` modulo 12, same mode.
    pub open spec fn spec_change_index(self, amount: int) -> Key {
        Key { tonic: ((self.tonic + amount) % 12) as usize, mode: self.mode }
    }

    /// Returns the key with the same tonic and the opposite mode.
    pub fn swap_kind(self) -> (r: Key)
        ensures
            r == self.spec_swap_kind(),
    {
        Key { tonic: self.tonic, mode: self.mode.swap() }
    }

    /// Shifts the tonic by `amount` positions around the wheel, wrapping
    /// with a true mathematical modulus, for any `amount`.
    pub fn change_index(self, amount: isize) -> (r: Key)
        requires
            self.wf(),
        ensures
            r == self.spec_change_index(amount as int),
            r.wf(),
    {
        let reduced = mod_cyclic(amount, 12);
        let index = mod_cyclic(self.tonic as isize + reduced, 12);
        proof {
            // (tonic + amount % 12) % 12 == (tonic + amount) % 12
            lemma_add_mod_noop_right(self.tonic as int, amount as int, 12);
        }
        Key { tonic: index as usize, mode: self.mode }
    }
}

/// Shifting by `a` and then by `b` is one shift by `a + b`.
pub proof fn lemma_change_index_additive(k: Key, a: int, b: int)
    requires
        k.wf(),
    ensures
        k.spec_change_index(a).spec_change_index(b) == k.spec_change_index(a + b),
{
    let t = k.tonic as int;
    assert(((t + a) % 12 + b) % 12 == (t + a + b) % 12) by {
        lemma_add_mod_noop((t + a) % 12, b, 12);
        vstd::arithmetic::div_mod::lemma_mod_twice(t + a, 12);
        lemma_add_mod_noop(t + a, b, 12);
    }
}

/// Shifting by zero changes nothing.
pub proof fn lemma_change_index_zero(k: Key)
    requires
        k.wf(),
    ensures
        k.spec_change_index(0) == k,
{
    lemma_small_mod(k.tonic as nat, 12);
}

/// A shift by `amount` is undone by the shift by `-amount`, for every
/// key and every integer amount.
pub proof fn lemma_change_index_inverse(k: Key, amount: int)
    requires
        k.wf(),
    ensures
        k.spec_change_index(amount).spec_change_index(-amount) == k,
{
    lemma_change_index_additive(k, amount, -amount);
    lemma_change_index_zero(k);
}

/// Swapping the mode twice returns the original key.
pub proof fn lemma_swap_kind_involution(k: Key)
    ensures
        k.spec_swap_kind().spec_swap_kind() == k,
{
}

/// Builds the key with the given tonic and mode.
pub fn scale(tonic: usize, mode: Mode) -> (r: Key)
    ensures
        r == (Key { tonic, mode }),
{
    Key { tonic, mode }
}

/// The 24 wheel positions in generation order: for each tonic the minor
/// key, then the major key.
pub open spec fn standard_scale_seq() -> Seq<Key> {
    Seq::new(
        24,
        |i: int|
            Key {
                tonic: (i / 2) as usize,
                mode: if i % 2 == 0 {
                    Mode::Minor
                } else {
                    Mode::Major
                },
            },
    )
}

/// The node identity of a key in the built graph: the position of the
/// key within the standard scale.
pub open spec fn spec_key_index(k: Key) -> int {
    2 * k.tonic + match k.mode {
        Mode::Minor => 0int,
        Mode::Major => 1int,
    }
}

/// The key stored at a node identity of the built graph.
pub open spec fn index_key(i: int) -> Key {
    standard_scale_seq()[i]
}

/// Every well-formed key sits at its own index of the standard scale.
pub proof fn lemma_key_index_roundtrip(k: Key)
    requires
        k.wf(),
    ensures
        0 <= spec_key_index(k) < 24,
        index_key(spec_key_index(k)) == k,
{
    let i = spec_key_index(k);
    assert(i / 2 == k.tonic && i % 2 == (match k.mode {
        Mode::Minor => 0int,
        Mode::Major => 1int,
    })) by (nonlinear_arith)
        requires
            k.tonic < 12,
            i == 2 * k.tonic + (match k.mode {
                Mode::Minor => 0int,
                Mode::Major => 1int,
            }),
    ;
}

/// Every index of the standard scale holds a well-formed key that maps
/// back to that index.
pub proof fn lemma_index_key_roundtrip(i: int)
    requires
        0 <= i < 24,
    ensures
        index_key(i).wf(),
        spec_key_index(index_key(i)) == i,
{
    assert(0 <= i / 2 < 12 && 2 * (i / 2) + i % 2 == i && (i % 2 == 0 || i % 2 == 1))
        by (nonlinear_arith)
        requires 0 <= i < 24,
    ;
}

/// Computes the node identity of a key: the lookup table from keys to
/// graph nodes, as a pure function.
pub fn key_index(k: Key) -> (i: usize)
    requires
        k.wf(),
    ensures
        i == spec_key_index(k),
        i < 24,
{
    2 * k.tonic + match k.mode {
        Mode::Minor => 0,
        Mode::Major => 1,
    }
}

/// Generates all 24 keys of the wheel.
pub fn make_standard_scale() -> (v: Vec<Key>)
    ensures
        v@ == standard_scale_seq(),
{
    let mut v: Vec<Key> = Vec::new();
    let mut i: usize = 0;
    while i < 12
        invariant
            i <= 12,
            v@.len() == 2 * i,
            forall|j: int| 0 <= j < v@.len() ==> v@[j] == standard_scale_seq()[j],
        decreases 12 - i,
    {
        v.push(Key { tonic: i, mode: Mode::Minor });
        v.push(Key { tonic: i, mode: Mode::Major });
        i = i + 1;
    }
    proof {
        assert(v@ =~= standard_scale_seq());
    }
    v
}


/// The single-letter token of a mode: `'A'` for minor, `'B'` for major.
pub open spec fn mode_char(m: Mode) -> char {
    match m {
        Mode::Minor => 'A',
        Mode::Major => 'B',
    }
}

/// Whether `c` is a mode letter.
pub open spec fn is_mode_char(c: char) -> bool {
    c == 'A' || c == 'B'
}

/// The mode of a mode letter.
pub open spec fn char_mode(c: char) -> Mode {
    if c == 'A' {
        Mode::Minor
    } else {
        Mode::Major
    }
}

/// The value of a nonzero decimal digit character, 0 for anything else.
pub open spec fn digit19_val(c: char) -> int {
    if c == '1' {
        1
    } else if c == '2' {
        2
    } else if c == '3' {
        3
    } else if c == '4' {
        4
    } else if c == '5' {
        5
    } else if c == '6' {
        6
    } else if c == '7' {
        7
    } else if c == '8' {
        8
    } else if c == '9' {
        9
    } else {
        0
    }
}

/// The decimal digits of the displayed tonic, which is shown 1-based.
pub open spec fn tonic_chars(t: int) -> Seq<char> {
    if t == 0 {
        seq!['1']
    } else if t == 1 {
        seq!['2']
    } else if t == 2 {
        seq!['3']
    } else if t == 3 {
        seq!['4']
    } else if t == 4 {
        seq!['5']
    } else if t == 5 {
        seq!['6']
    } else if t == 6 {
        seq!['7']
    } else if t == 7 {
        seq!['8']
    } else if t == 8 {
        seq!['9']
    } else if t == 9 {
        seq!['1', '0']
    } else if t == 10 {
        seq!['1', '1']
    } else if t == 11 {
        seq!['1', '2']
    } else {
        Seq::<char>::empty()
    }
}

/// The decoded key of a character sequence: the tonic shown 1-based as
/// `1` to `12` followed by one mode letter, and nothing else. Any other
/// sequence decodes to nothing.
pub open spec fn spec_decode(s: Seq<char>) -> Option<Key> {
    if s.len() == 2 && digit19_val(s[0]) >= 1 && is_mode_char(s[1]) {
        Some(Key { tonic: (digit19_val(s[0]) - 1) as usize, mode: char_mode(s[1]) })
    } else if s.len() == 3 && s[0] == '1' && (s[1] == '0' || s[1] == '1' || s[1] == '2')
        && is_mode_char(s[2]) {
        Some(
            Key {
                tonic: (9 + (if s[1] == '0' {
                    0int
                } else if s[1] == '1' {
                    1int
                } else {
                    2int
                })) as usize,
                mode: char_mode(s[2]),
            },
        )
    } else {
        None
    }
}

impl Key {
    /// The textual encoding of a key: its tonic shown 1-based, then its
    /// mode letter.
    pub open spec fn spec_encode(self) -> Seq<char> {
        tonic_chars(self.tonic as int) + seq![mode_char(self.mode)]
    }

    /// Renders the key in its textual form, `"1A"` to `"12B"`.
    pub fn encode(&self) -> (r: String)
        requires
            self.wf(),
        ensures
            r@ == self.spec_encode(),
    {
        proof {
            reveal_strlit("1");
            reveal_strlit("2");
            reveal_strlit("3");
            reveal_strlit("4");
            reveal_strlit("5");
            reveal_strlit("6");
            reveal_strlit("7");
            reveal_strlit("8");
            reveal_strlit("9");
            reveal_strlit("10");
            reveal_strlit("11");
            reveal_strlit("12");
            reveal_strlit("A");
            reveal_strlit("B");
        }
        let digits: &str = if self.tonic == 0 {
            "1"
        } else if self.tonic == 1 {
            "2"
        } else if self.tonic == 2 {
            "3"
        } else if self.tonic == 3 {
            "4"
        } else if self.tonic == 4 {
            "5"
        } else if self.tonic == 5 {
            "6"
        } else if self.tonic == 6 {
            "7"
        } else if self.tonic == 7 {
            "8"
        } else if self.tonic == 8 {
            "9"
        } else if self.tonic == 9 {
            "10"
        } else if self.tonic == 10 {
            "11"
        } else {
            "12"
        };
        proof {
            assert(digits@ =~= tonic_chars(self.tonic as int));
        }
        let mut out = String::from_str(digits);
        let letter: &str = match self.mode {
            Mode::Minor => "A",
            Mode::Major => "B",
        };
        out.append(letter);
        proof {
            assert(out@ =~= self.spec_encode());
        }
        out
    }

    /// Parses the textual form of a key. Exactly the strings `"1A"` to
    /// `"12B"` are accepted; everything else is an encoding error.
    pub fn decode(s: &str) -> (r: Result<Key, ScaleError>)
        ensures
            match r {
                Ok(k) => spec_decode(s@) == Some(k) && k.wf(),
                Err(e) => spec_decode(s@) is None && e == ScaleError::InvalidScaleString,
            },
    {
        if !s.is_ascii() {
            proof {
                assert(spec_decode(s@) is None) by {
                    if spec_decode(s@) is Some {
                        assert(forall|i: int|
                            0 <= i < s@.len() ==> '\0' <= #[trigger] s@[i] <= '\u{7f}');
                    }
                }
            }
            return Err(ScaleError::InvalidScaleString);
        }
        let len = s.unicode_len();
        if len == 2 {
            let c0 = s.get_char(0);
            let c1 = s.get_char(1);
            let shown: usize = match c0 {
                '1' => 1,
                '2' => 2,
                '3' => 3,
                '4' => 4,
                '5' => 5,
                '6' => 6,
                '7' => 7,
                '8' => 8,
                '9' => 9,
                _ => 0,
            };
            if shown >= 1 && (c1 == 'A' || c1 == 'B') {
                let mode = if c1 == 'A' {
                    Mode::Minor
                } else {
                    Mode::Major
                };
                return Ok(Key { tonic: shown - 1, mode });
            }
            return Err(ScaleError::InvalidScaleString);
        }
        if len == 3 {
            let c0 = s.get_char(0);
            let c1 = s.get_char(1);
            let c2 = s.get_char(2);
            if c0 == '1' && (c1 == '0' || c1 == '1' || c1 == '2') && (c2 == 'A' || c2 == 'B') {
                let shown: usize = if c1 == '0' {
                    10
                } else if c1 == '1' {
                    11
                } else {
                    12
                };
                let mode = if c2 == 'A' {
                    Mode::Minor
                } else {
                    Mode::Major
                };
                return Ok(Key { tonic: shown - 1, mode });
            }
            return Err(ScaleError::InvalidScaleString);
        }
        Err(ScaleError::InvalidScaleString)
    }
}

/// Encoding then decoding returns every well-formed key unchanged.
pub proof fn lemma_decode_encode_roundtrip(k: Key)
    requires
        k.wf(),
    ensures
        spec_decode(k.spec_encode()) == Some(k),
{
    let s = k.spec_encode();
    if k.tonic <= 8 {
        assert(s.len() == 2);
        assert(s[0] == tonic_chars(k.tonic as int)[0]);
        assert(s[1] == mode_char(k.mode));
        assert(digit19_val(s[0]) == k.tonic + 1);
        assert(char_mode(s[1]) == k.mode);
    } else {
        assert(s.len() == 3);
        assert(s[0] == tonic_chars(k.tonic as int)[0]);
        assert(s[1] == tonic_chars(k.tonic as int)[1]);
        assert(s[2] == mode_char(k.mode));
    }
}

} // verus!
