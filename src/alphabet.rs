use crate::error::{Error, Kind};
use crate::table::{
    canonical_digit, canonical_order, canonical_symbol, canonical_value, is_symbol, lemma_symbol,
    lower, symbol,
};
use rand::seq::SliceRandom;
use vstd::prelude::*;
use vstd::seq_lib::to_multiset_contains;
use vstd::string::StringSliceAdditionalSpecFns;

verus! {

/// `a` lists each of the 32 canonical symbols exactly once.
pub open spec fn is_symbol_order(a: Seq<u8>) -> bool {
    &&& a.len() == 32
    &&& a.no_duplicates()
    &&& forall|i: int| 0 <= i < 32 ==> is_symbol(#[trigger] a[i])
    &&& forall|d: int| 0 <= d < 32 ==> a.contains(#[trigger] symbol(d))
}

/// The index at which `x` stands in `a`.
pub open spec fn position_of(a: Seq<u8>, x: u8) -> int {
    choose|i: int| 0 <= i < a.len() && a[i] == x
}

/// What the decode table of the symbol order `a` holds for byte `b`: the index in
/// `a` of the symbol that `b` reads as, or the canonical marker of `b`.
pub open spec fn decode_entry(a: Seq<u8>, b: u8) -> i8 {
    let c = canonical_value(b);
    if c < 0 {
        c
    } else {
        position_of(a, symbol(c as int)) as i8
    }
}

/// One of the four letters that a custom alphabet may not name: `I`, `L`, `O`
/// (read as `1`, `1`, `0`) in either case.
pub open spec fn is_ambiguous(b: u8) -> bool {
    b == 73 || b == 105 || b == 76 || b == 108 || b == 79 || b == 111
}

/// A byte that a custom alphabet may hold.
pub open spec fn is_allowed(b: u8) -> bool {
    canonical_value(b) >= 0 && !is_ambiguous(b)
}

/// The canonical symbol that an allowed byte stands for (its upper case).
pub open spec fn folded(b: u8) -> u8 {
    symbol(canonical_value(b) as int)
}

/// `s` names each of the 32 symbols exactly once, in either case.
pub open spec fn is_custom_order(s: Seq<u8>) -> bool {
    &&& s.len() == 32
    &&& forall|i: int| 0 <= i < s.len() ==> is_allowed(#[trigger] s[i])
    &&& forall|i: int, j: int|
        0 <= i < s.len() && 0 <= j < s.len() && i != j ==> folded(#[trigger] s[i]) != folded(
            #[trigger] s[j],
        )
    &&& forall|d: int| 0 <= d < 32 ==> #[trigger] names(s, symbol(d))
}

/// Some byte of `s` stands for the symbol `u`.
pub open spec fn names(s: Seq<u8>, u: u8) -> bool {
    exists|i: int| 0 <= i < s.len() && #[trigger] folded(s[i]) == u
}

/// The bytes that read as the same symbol as `u`: `u` itself, its lower case,
/// and the look-alikes of `0` and `1`.
pub open spec fn is_alias(u: u8, b: u8) -> bool {
    ||| b == u
    ||| b == lower(u)
    ||| (u == 48 && (b == 79 || b == 111))
    ||| (u == 49 && (b == 73 || b == 105 || b == 76 || b == 108))
}

/// The bytes that read as a symbol's digit are exactly its aliases.
pub proof fn lemma_aliases(u: u8)
    requires
        is_symbol(u),
    ensures
        forall|b: u8| (canonical_value(b) == canonical_value(u)) <==> #[trigger] is_alias(u, b),
{
}

/// The symbol orders that a seeded shuffle can give: a name for the order that
/// `shuffle_with_seed` returns.
pub uninterp spec fn seeded_shuffle(seed: u32, items: Seq<u8>) -> Seq<u8>;

/// Relies on `squirrel_rng::SquirrelRng::with_seed`, which turns the seed into a
/// generator whose output depends on the seed alone, and on rand's
/// `SliceRandom::shuffle`, which only swaps entries: the result is a permutation
/// of the items that depends on the seed and the items alone.
#[verifier::external_body]
fn shuffle_with_seed(seed: u32, items: [u8; 32]) -> (r: [u8; 32])
    ensures
        r@ == seeded_shuffle(seed, items@),
        r@.to_multiset() == items@.to_multiset(),
{
    let mut items = items;
    items.shuffle(&mut squirrel_rng::SquirrelRng::with_seed(seed));
    items
}

/// A permutation of a symbol order is a symbol order.
proof fn lemma_permutation_order(a: Seq<u8>, b: Seq<u8>)
    requires
        is_symbol_order(a),
        b.len() == 32,
        b.to_multiset() == a.to_multiset(),
    ensures
        is_symbol_order(b),
{
    broadcast use to_multiset_contains;

    a.lemma_multiset_has_no_duplicates();
    b.lemma_multiset_has_no_duplicates_conv();
    assert forall|i: int| 0 <= i < 32 implies is_symbol(#[trigger] b[i]) by {
        assert(b.to_multiset().count(b[i]) > 0);
        assert(a.to_multiset().count(b[i]) > 0);
        assert(a.contains(b[i]));
    }
    assert forall|d: int| 0 <= d < 32 implies b.contains(#[trigger] symbol(d)) by {
        assert(a.contains(symbol(d)));
        assert(a.to_multiset().count(symbol(d)) > 0);
    }
}

/// The symbol order that a salt shuffles the canonical alphabet into.
pub open spec fn salted_order(salt: Seq<u8>) -> Seq<u8> {
    seeded_shuffle(salt_hash(salt), Alphabet::canonical_spec())
}

/// FNV-1a over 32 bits, before the final mix.
pub open spec fn fnv_fold(s: Seq<u8>) -> u32
    decreases s.len(),
{
    if s.len() == 0 {
        2166136261
    } else {
        (fnv_fold(s.drop_last()) ^ (s.last() as u32)).wrapping_mul(16777619)
    }
}

/// The final avalanche mix of the salt hash.
pub open spec fn fnv_finish(h: u32) -> u32 {
    let h1 = h.wrapping_add(h << 13u32);
    let h2 = h1 ^ (h1 >> 7u32);
    let h3 = h2.wrapping_add(h2 << 3u32);
    let h4 = h3 ^ (h3 >> 17u32);
    h4.wrapping_add(h4 << 5u32)
}

/// The seed derived from a salt.
pub open spec fn salt_hash(s: Seq<u8>) -> u32 {
    fnv_finish(fnv_fold(s))
}

/// The FNV prime of 32 bits.
const P: u32 = 16777619;

/// The FNV offset basis of 32 bits.
const SEED_HASH: u32 = 2166136261;

/// Hashes a salt into a 32-bit seed: FNV-1a, then a fixed shift/xor/add mix.
pub fn fnv_hash(bytes: &[u8]) -> (r: u32)
    ensures
        r == salt_hash(bytes@),
{
    let mut hash: u32 = SEED_HASH;
    let mut i: usize = 0;
    while i < bytes.len()
        invariant
            i <= bytes@.len(),
            hash == fnv_fold(bytes@.subrange(0, i as int)),
        decreases bytes@.len() - i,
    {
        proof {
            assert(bytes@.subrange(0, i + 1).drop_last() =~= bytes@.subrange(0, i as int));
        }
        hash = (hash ^ bytes[i] as u32).wrapping_mul(P);
        i = i + 1;
    }
    proof {
        assert(bytes@.subrange(0, i as int) =~= bytes@);
    }
    hash = hash.wrapping_add(hash << 13u32);
    hash = hash ^ (hash >> 7u32);
    hash = hash.wrapping_add(hash << 3u32);
    hash = hash ^ (hash >> 17u32);
    hash.wrapping_add(hash << 5u32)
}

/// The lower case of an ASCII letter; any other byte is kept.
fn ascii_lower(u: u8) -> (r: u8)
    ensures
        r == lower(u),
{
    if 65 <= u && u <= 90 {
        u + 32
    } else {
        u
    }
}

/// A permutation of the 32 symbols, with the table that reads input bytes back
/// as digits.
#[derive(Clone, Copy, Debug)]
pub struct Alphabet {
    alpha: [u8; 32],
    mapping: [i8; 256],
}

impl Alphabet {
    #[verifier::type_invariant]
    pub(crate) open spec fn inv(&self) -> bool {
        self.wf()
    }

    /// The output symbol of each digit.
    pub closed spec fn order(&self) -> Seq<u8> {
        self.alpha@
    }

    /// The digit (or marker) that each byte reads as.
    pub closed spec fn table(&self) -> Seq<i8> {
        self.mapping@
    }

    pub open spec fn wf(&self) -> bool {
        &&& is_symbol_order(self.order())
        &&& self.table().len() == 256
        &&& forall|b: u8| #[trigger] self.table()[b as int] == decode_entry(self.order(), b)
    }

    /// The unshuffled alphabet: `0123456789ABCDEFGHJKMNPQRSTVWXYZ`.
    pub fn canonical() -> (r: Alphabet)
        ensures
            r.wf(),
            forall|i: int| 0 <= i < 32 ==> r.order()[i] == symbol(i),
    {
        let alpha = canonical_order();
        proof {
            assert forall|i: int| 0 <= i < 32 implies is_symbol(#[trigger] alpha@[i]) by {
                lemma_symbol(i);
            }
            assert forall|d: int| 0 <= d < 32 implies alpha@.contains(#[trigger] symbol(d)) by {
                assert(alpha@[d] == symbol(d));
            }
            assert forall|i: int, j: int| 0 <= i < 32 && 0 <= j < 32 && i != j implies alpha@[i]
                != alpha@[j] by {
                lemma_symbol(i);
                assert(alpha@[i] == symbol(i) && alpha@[j] == symbol(j));
            }
        }
        Self::from_checked_alphabet(alpha)
    }

    /// Shuffles the alphabet with a seed derived from the salt.
    pub fn from_salt(salt: &[u8]) -> (r: Alphabet)
        ensures
            r.wf(),
            r.order() == salted_order(salt@),
    {
        let hash = fnv_hash(salt);
        Self::from_seed(hash)
    }

    /// The canonical symbols in digit order.
    pub open spec fn canonical_spec() -> Seq<u8> {
        Seq::new(32, |i: int| symbol(i))
    }

    /// Shuffles the alphabet with the given seed.
    pub fn from_seed(seed: u32) -> (r: Alphabet)
        ensures
            r.wf(),
            r.order() == seeded_shuffle(seed, Alphabet::canonical_spec()),
    {
        let canonical = Self::canonical();
        let alpha = canonical.alpha;
        proof {
            assert(alpha@ =~= Alphabet::canonical_spec());
        }
        let shuffled = shuffle_with_seed(seed, alpha);
        proof {
            lemma_permutation_order(alpha@, shuffled@);
        }
        Self::from_checked_alphabet(shuffled)
    }

    /// Builds the decode table of a symbol order.
    fn from_checked_alphabet(alpha: [u8; 32]) -> (r: Alphabet)
        requires
            is_symbol_order(alpha@),
        ensures
            r.wf(),
            r.order() == alpha@,
    {
        let mut mapping: [i8; 256] = [0i8; 256];
        let mut b: usize = 0;
        while b < 256
            invariant
                b <= 256,
                forall|k: int| 0 <= k < b ==> mapping@[k] == canonical_value(k as u8),
            decreases 256 - b,
        {
            mapping[b] = canonical_digit(b as u8);
            b = b + 1;
        }
        let mut i: usize = 0;
        while i < 32
            invariant
                i <= 32,
                is_symbol_order(alpha@),
                forall|x: u8| canonical_value(x) < 0 ==> #[trigger] mapping@[x as int] == canonical_value(x),
                forall|x: u8|
                    canonical_value(x) >= 0 && alpha@.subrange(0, i as int).contains(
                        symbol(canonical_value(x) as int),
                    ) ==> 0 <= #[trigger] mapping@[x as int] < i && alpha@[mapping@[x as int] as int]
                        == symbol(canonical_value(x) as int),
            decreases 32 - i,
        {
            let scrambled = alpha[i];
            let value = canonical_digit(canonical_symbol(i as u8));
            proof {
                lemma_symbol(i as int);
                lemma_aliases(scrambled);
                lemma_symbol(canonical_value(scrambled) as int);
            }
            if scrambled == 48 {
                mapping[48] = value;
                mapping[79] = value;
                mapping[111] = value;
            } else if scrambled == 49 {
                mapping[49] = value;
                mapping[73] = value;
                mapping[105] = value;
                mapping[76] = value;
                mapping[108] = value;
            } else {
                mapping[scrambled as usize] = value;
                let lower = ascii_lower(scrambled);
                mapping[lower as usize] = value;
            }
            proof {
                assert forall|x: u8|
                    canonical_value(x) >= 0 && alpha@.subrange(0, i + 1).contains(
                        symbol(canonical_value(x) as int),
                    ) implies 0 <= #[trigger] mapping@[x as int] < i + 1 && alpha@[mapping@[x as int] as int]
                        == symbol(canonical_value(x) as int) by {
                    lemma_symbol(canonical_value(x) as int);
                    if is_alias(scrambled, x) {
                        assert(alpha@[i as int] == symbol(canonical_value(x) as int));
                    } else {
                        let t = symbol(canonical_value(x) as int);
                        let j = choose|j: int|
                            0 <= j < i + 1 && #[trigger] alpha@.subrange(0, i + 1)[j] == t;
                        assert(j != i);
                        assert(alpha@.subrange(0, i as int)[j] == symbol(canonical_value(x) as int));
                    }
                }
            }
            i = i + 1;
        }
        proof {
            assert forall|x: u8| #[trigger] mapping@[x as int] == decode_entry(alpha@, x) by {
                if canonical_value(x) >= 0 {
                    let s = symbol(canonical_value(x) as int);
                    assert(alpha@.contains(s));
                    assert(alpha@.subrange(0, 32) =~= alpha@);
                    let j = mapping@[x as int] as int;
                    let p = position_of(alpha@, s);
                    assert(p == j);
                }
            }
        }
        Alphabet { alpha, mapping }
    }

    /// Reads a custom alphabet: 32 symbols in either case, each of the canonical
    /// symbols exactly once, without `I`, `L`, `O`.
    pub fn new(spec: &str) -> (r: Result<Alphabet, Error>)
        ensures
            r is Ok <==> is_custom_order(spec.spec_bytes()),
            r matches Ok(a) ==> a.wf() && a.order() == spec.spec_bytes().map_values(|b: u8| folded(b)),
            r matches Err(e) ==> e.kind == Kind::InvalidAlphabet,
    {
        let bytes = spec.as_bytes();
        if bytes.len() != 32 {
            return Err(Error::new(Kind::InvalidAlphabet));
        }
        let mut alpha: [u8; 32] = [0u8; 32];
        let mut seen: [bool; 32] = [false; 32];
        let mut i: usize = 0;
        while i < 32
            invariant
                i <= 32,
                bytes@.len() == 32,
                bytes@ == spec.spec_bytes(),
                forall|k: int| 0 <= k < i ==> is_allowed(#[trigger] bytes@[k]),
                forall|k: int| 0 <= k < i ==> #[trigger] alpha@[k] == folded(bytes@[k]),
                forall|k1: int, k2: int|
                    0 <= k1 < i && 0 <= k2 < i && k1 != k2 ==> folded(#[trigger] bytes@[k1]) != folded(
                        #[trigger] bytes@[k2],
                    ),
                forall|d: int|
                    0 <= d < 32 ==> (#[trigger] seen@[d] <==> exists|k: int|
                        0 <= k < i && canonical_value(bytes@[k]) == d),
            decreases 32 - i,
        {
            let b = bytes[i];
            let c = canonical_digit(b);
            if c < 0 || b == 73 || b == 105 || b == 76 || b == 108 || b == 79 || b == 111 {
                return Err(Error::new(Kind::InvalidAlphabet));
            }
            if seen[c as usize] {
                proof {
                    let k = choose|k: int| 0 <= k < i && canonical_value(bytes@[k]) == c;
                    assert(folded(bytes@[k]) == folded(bytes@[i as int]));
                }
                return Err(Error::new(Kind::InvalidAlphabet));
            }
            proof {
                assert forall|k: int| 0 <= k < i implies folded(bytes@[k]) != folded(b) by {
                    lemma_symbol(c as int);
                    lemma_symbol(canonical_value(bytes@[k]) as int);
                    if folded(bytes@[k]) == folded(b) {
                        assert(seen@[canonical_value(bytes@[k]) as int]);
                    }
                }
            }
            seen[c as usize] = true;
            alpha[i] = canonical_symbol(c as u8);
            i = i + 1;
            proof {
                assert forall|d: int|
                    0 <= d < 32 implies (#[trigger] seen@[d] <==> exists|k: int|
                        0 <= k < i && canonical_value(bytes@[k]) == d) by {
                    if d == c {
                        assert(canonical_value(bytes@[i - 1]) == d);
                    } else if seen@[d] {
                        let k = choose|k: int| 0 <= k < i - 1 && canonical_value(bytes@[k]) == d;
                        assert(0 <= k < i && canonical_value(bytes@[k]) == d);
                    }
                }
            }
        }
        let mut d: usize = 0;
        while d < 32
            invariant
                d <= 32,
                forall|e: int| 0 <= e < d ==> #[trigger] seen@[e],
                bytes@.len() == 32,
                bytes@ == spec.spec_bytes(),
                forall|k: int| 0 <= k < 32 ==> is_allowed(#[trigger] bytes@[k]),
                forall|k: int| 0 <= k < 32 ==> #[trigger] alpha@[k] == folded(bytes@[k]),
                forall|k1: int, k2: int|
                    0 <= k1 < 32 && 0 <= k2 < 32 && k1 != k2 ==> folded(#[trigger] bytes@[k1]) != folded(
                        #[trigger] bytes@[k2],
                    ),
                forall|e: int|
                    0 <= e < 32 ==> (#[trigger] seen@[e] <==> exists|k: int|
                        0 <= k < 32 && canonical_value(bytes@[k]) == e),
            decreases 32 - d,
        {
            if !seen[d] {
                proof {
                    assert forall|k: int| 0 <= k < 32 implies #[trigger] folded(bytes@[k]) != symbol(
                        d as int,
                    ) by {
                        assert(is_allowed(bytes@[k]));
                        lemma_symbol(d as int);
                        lemma_symbol(canonical_value(bytes@[k]) as int);
                        if canonical_value(bytes@[k]) == d {
                            assert(seen@[d as int]);
                        }
                    }
                    assert(!names(bytes@, symbol(d as int)));
                }
                return Err(Error::new(Kind::InvalidAlphabet));
            }
            d = d + 1;
        }
        proof {
            let s = bytes@;
            assert forall|d: int| 0 <= d < 32 implies #[trigger] names(s, symbol(d)) by {
                assert(seen@[d]);
                let k = choose|k: int| 0 <= k < 32 && canonical_value(bytes@[k]) == d;
                assert(folded(s[k]) == symbol(d));
            }
            assert forall|k: int| 0 <= k < 32 implies is_symbol(#[trigger] alpha@[k]) by {
                lemma_symbol(canonical_value(bytes@[k]) as int);
            }
            assert forall|e: int| 0 <= e < 32 implies alpha@.contains(#[trigger] symbol(e)) by {
                assert(names(s, symbol(e)));
                let k = choose|k: int| 0 <= k < s.len() && #[trigger] folded(s[k]) == symbol(e);
                assert(alpha@[k] == symbol(e));
            }
            assert(alpha@ =~= bytes@.map_values(|b: u8| folded(b)));
            assert(is_custom_order(s));
        }
        Ok(Self::from_checked_alphabet(alpha))
    }

    /// The output symbols, in digit order.
    pub fn symbols(&self) -> (r: [u8; 32])
        ensures
            r@ == self.order(),
            self.wf(),
    {
        proof {
            use_type_invariant(self);
        }
        self.alpha
    }

    /// The output symbol of a digit.
    pub fn symbol_at(&self, d: u8) -> (r: u8)
        requires
            d < 32,
        ensures
            r == self.order()[d as int],
            self.wf(),
    {
        proof {
            use_type_invariant(self);
        }
        self.alpha[d as usize]
    }

    /// What byte `b` reads as: a digit below 32 or a negative marker.
    pub fn digit_of(&self, b: u8) -> (r: i8)
        ensures
            r == decode_entry(self.order(), b),
            self.wf(),
    {
        proof {
            use_type_invariant(self);
        }
        self.mapping[b as usize]
    }
}

} // verus!
