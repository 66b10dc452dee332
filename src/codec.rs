use crate::alphabet::{decode_entry, is_symbol_order, position_of, salted_order, Alphabet};
use crate::digits::{
    digits, lemma_digits_len, lemma_digits_value, lemma_padded_len, lemma_padded_split,
    lemma_value_of_push, padded, value_of,
};
use crate::error::{Error, Kind};
use crate::packing::{
    lemma_register_empty, lemma_register_skip, lemma_register_step, lemma_register_top, register,
    STOP_BIT,
};
use crate::salt::Salt;
use crate::table::{canonical_value, is_symbol, lower, symbol, CHECK_DIGIT};
use vstd::arithmetic::power2::{
    lemma2_to64, lemma2_to64_rest, lemma_pow2_adds, lemma_pow2_strictly_increases, pow2,
};
use vstd::prelude::*;
use vstd::string::StringSliceAdditionalSpecFns;

verus! {

/// The keystream mask of the `i`-th digit: the salt's bytes taken cyclically, modulo 32.
pub open spec fn mask(salt: Seq<u8>, i: int) -> u8 {
    salt[i % (salt.len() as int)] % 32
}

/// The symbols that encode `v` under a symbol order and a salt: each base-32 digit
/// of `v`, XORed with its mask, picks an output symbol.
pub open spec fn encoded(order: Seq<u8>, salt: Seq<u8>, v: nat) -> Seq<u8> {
    let ds = digits(v);
    Seq::new(ds.len(), |i: int| order[(ds[i] ^ mask(salt, i)) as int])
}

/// Bytes read as characters.
pub open spec fn chars_of(s: Seq<u8>) -> Seq<char> {
    s.map_values(|b: u8| b as char)
}

/// The digits that the symbols of `s` carry once their masks are removed.
pub open spec fn unmasked(order: Seq<u8>, salt: Seq<u8>, s: Seq<u8>) -> Seq<u8> {
    Seq::new(s.len(), |i: int| (decode_entry(order, s[i]) as u8) ^ mask(salt, i))
}

/// The first position of `s` whose byte is no symbol.
pub open spec fn first_rejected(s: Seq<u8>) -> int {
    choose|i: int|
        0 <= i < s.len() && canonical_value(s[i]) < 0 && forall|j: int|
            0 <= j < i ==> canonical_value(#[trigger] s[j]) >= 0
}

/// Some byte of `s` is no symbol.
pub open spec fn has_rejected(s: Seq<u8>) -> bool {
    exists|i: int| 0 <= i < s.len() && canonical_value(#[trigger] s[i]) < 0
}

/// What decoding the bytes `s` gives: the empty text, more than 13 symbols, and
/// the first byte that is no symbol are errors; otherwise the place values of the
/// unmasked digits, summed modulo 2^64.
pub open spec fn decoding(order: Seq<u8>, salt: Seq<u8>, s: Seq<u8>) -> Result<u64, Kind> {
    if s.len() == 0 {
        Err(Kind::EmptyString)
    } else if s.len() > 13 {
        Err(Kind::OutOfRange)
    } else if has_rejected(s) {
        let i = first_rejected(s);
        if canonical_value(s[i]) == CHECK_DIGIT {
            Err(Kind::CheckDigitUnsupported(i as usize, s[i]))
        } else {
            Err(Kind::InvalidDigit(i as usize, s[i]))
        }
    } else {
        Ok((value_of(unmasked(order, salt, s)) % pow2(64)) as u64)
    }
}

/// Masking a digit keeps it a digit, and masking twice gives it back.
pub proof fn lemma_mask_digit(a: u8, b: u8)
    requires
        a < 32,
        b < 32,
    ensures
        a ^ b < 32,
        (a ^ b) ^ b == a,
{
    assert(a ^ b < 32 && (a ^ b) ^ b == a) by (bit_vector)
        requires
            a < 32,
            b < 32,
    ;
}

/// The cursor position after the `e`-th draw from a salt of `len` bytes.
proof fn lemma_next_position(e: nat, len: nat)
    requires
        len > 0,
    ensures
        ((e % len) + 1) % len == (e + 1) % len,
{
    vstd::arithmetic::div_mod::lemma_add_mod_noop((e % len) as int, 1, len as int);
    vstd::arithmetic::div_mod::lemma_add_mod_noop(e as int, 1, len as int);
    vstd::arithmetic::div_mod::lemma_mod_twice(e as int, len as int);
}

/// Relies on `String::push`: appends one character.
#[verifier::external_body]
fn push_char(s: &mut String, c: char)
    ensures
        final(s)@ == old(s)@.push(c),
{
    s.push(c)
}

/// Round trip: under every symbol order and non-empty salt, decoding the
/// encoding of a value gives the value back.
pub proof fn lemma_round_trip(order: Seq<u8>, salt: Seq<u8>, v: u64)
    requires
        is_symbol_order(order),
        salt.len() > 0,
    ensures
        decoding(order, salt, encoded(order, salt, v as nat)) == Ok::<u64, Kind>(v),
{
    lemma2_to64();
    let ds = digits(v as nat);
    let s = encoded(order, salt, v as nat);
    lemma_length_bounds(order, salt, v);
    lemma_digits_value(v as nat);
    assert forall|i: int| 0 <= i < s.len() implies canonical_value(#[trigger] s[i]) >= 0
        && (decode_entry(order, s[i]) as u8) ^ mask(salt, i) == ds[i] by {
        let x = ds[i] ^ mask(salt, i);
        lemma_mask_digit(ds[i], mask(salt, i));
        assert(is_symbol(order[x as int]));
        let p = position_of(order, order[x as int]);
        assert(0 <= p < 32 && order[p] == order[x as int]);
        assert(p == x);
    }
    assert(unmasked(order, salt, s) =~= ds);
    vstd::arithmetic::div_mod::lemma_small_mod(v as nat, pow2(64));
}

/// Minimality: the encoding has one symbol per base-32 digit of the value, and
/// as few as can hold it: one for 0, and otherwise `k` with
/// `32^(k-1) <= v < 32^k`; never more than 13.
pub proof fn lemma_length_bounds(order: Seq<u8>, salt: Seq<u8>, v: u64)
    ensures
        encoded(order, salt, v as nat).len() == digits(v as nat).len(),
        1 <= encoded(order, salt, v as nat).len() <= 13,
        v == 0 ==> encoded(order, salt, v as nat).len() == 1,
        v < pow2(5 * encoded(order, salt, v as nat).len()),
        encoded(order, salt, v as nat).len() > 1 ==> v >= pow2(
            5 * (encoded(order, salt, v as nat).len() - 1) as nat,
        ),
{
    lemma2_to64();
    lemma_digits_len(v as nat);
    let k = digits(v as nat).len();
    if k > 13 {
        lemma_pow2_strictly_increases(64, 5 * (k - 1) as nat);
    }
    if v == 0 {
        assert(digits(0) =~= seq![0u8]);
    }
}

/// Neutral baseline: with the unshuffled alphabet and a salt whose bytes are all
/// multiples of 32, the encoding is the plain base-32 digits in canonical symbols.
pub proof fn lemma_plain_encoding(order: Seq<u8>, salt: Seq<u8>, v: u64)
    requires
        order == Alphabet::canonical_spec(),
        salt.len() > 0,
        forall|i: int| 0 <= i < salt.len() ==> #[trigger] salt[i] % 32 == 0,
    ensures
        encoded(order, salt, v as nat) == digits(v as nat).map_values(|d: u8| symbol(d as int)),
{
    let ds = digits(v as nat);
    lemma_digits_value(v as nat);
    assert forall|i: int| 0 <= i < ds.len() implies #[trigger] (ds[i] ^ mask(salt, i)) == ds[i] by {
        let m = mask(salt, i);
        assert(0 <= i % (salt.len() as int) < salt.len()) by {
            vstd::arithmetic::div_mod::lemma_mod_bound(i, salt.len() as int);
        }
        assert(m == 0);
        let d = ds[i];
        assert(d ^ 0u8 == d) by (bit_vector);
    }
    assert(encoded(order, salt, v as nat) =~= ds.map_values(|d: u8| symbol(d as int)));
}

/// Folding: under every symbol order, a lower-case letter reads as its upper
/// case, `O` and `o` read as `0`, and `I`, `i`, `L`, `l` read as `1`.
pub proof fn lemma_folding(order: Seq<u8>, b: u8)
    ensures
        decode_entry(order, lower(b)) == decode_entry(order, b),
        decode_entry(order, 79) == decode_entry(order, 48),
        decode_entry(order, 111) == decode_entry(order, 48),
        decode_entry(order, 73) == decode_entry(order, 49),
        decode_entry(order, 105) == decode_entry(order, 49),
        decode_entry(order, 76) == decode_entry(order, 49),
        decode_entry(order, 108) == decode_entry(order, 49),
{
}

/// Decoding is case-insensitive: a text and its lower-case form are rejected
/// alike, and where neither is rejected they decode to the same result.
pub proof fn lemma_case_insensitive(order: Seq<u8>, salt: Seq<u8>, s: Seq<u8>, t: Seq<u8>)
    requires
        t.len() == s.len(),
        forall|i: int| 0 <= i < s.len() ==> #[trigger] t[i] == lower(s[i]),
    ensures
        has_rejected(s) == has_rejected(t),
        !has_rejected(s) ==> decoding(order, salt, t) == decoding(order, salt, s),
{
    assert forall|i: int| 0 <= i < s.len() implies canonical_value(#[trigger] t[i]) == canonical_value(
        s[i],
    ) && decode_entry(order, t[i]) == decode_entry(order, s[i]) by {
        lemma_folding(order, s[i]);
    }
    if has_rejected(s) {
        let i = choose|i: int| 0 <= i < s.len() && canonical_value(#[trigger] s[i]) < 0;
        assert(canonical_value(t[i]) < 0);
    }
    if has_rejected(t) {
        let i = choose|i: int| 0 <= i < t.len() && canonical_value(#[trigger] t[i]) < 0;
        assert(canonical_value(s[i]) < 0);
    }
    assert(unmasked(order, salt, t) =~= unmasked(order, salt, s));
}

/// Determinism: two codecs built by `Weird::from_salt` from salts with the same
/// bytes, whenever and wherever they were built, have the same alphabet and
/// encode every value alike.
pub proof fn lemma_same_salt<T: Salt, U: Salt>(a: &Weird<T>, b: &Weird<U>, v: nat)
    requires
        a.order() == salted_order(a.key()),
        b.order() == salted_order(b.key()),
        a.key() == b.key(),
    ensures
        a.order() == b.order(),
        encoded(a.order(), a.key(), v) == encoded(b.order(), b.key(), v),
{
}

/// A salted base-32 codec: one alphabet and one salt.
pub struct Weird<T: Salt> {
    alphabet: Alphabet,
    salt: T,
}

impl<T: Salt> Weird<T> {
    #[verifier::type_invariant]
    spec fn inv(&self) -> bool {
        self.salt.salt_bytes().len() > 0
    }

    /// The codec's alphabet.
    pub closed spec fn codec_alphabet(&self) -> Alphabet {
        self.alphabet
    }

    /// The codec's salt bytes.
    pub closed spec fn key(&self) -> Seq<u8> {
        self.salt.salt_bytes()
    }

    /// The output symbol of each digit.
    pub open spec fn order(&self) -> Seq<u8> {
        self.codec_alphabet().order()
    }

    pub open spec fn wf(&self) -> bool {
        &&& self.codec_alphabet().wf()
        &&& self.key().len() > 0
    }

    /// A codec whose alphabet is shuffled with a seed derived from the salt.
    pub fn from_salt(salt: T) -> (r: Result<Weird<T>, Error>)
        ensures
            r is Ok <==> salt.salt_bytes().len() > 0,
            r matches Ok(w) ==> w.wf() && w.key() == salt.salt_bytes() && w.order()
                == salted_order(salt.salt_bytes()),
            r matches Err(e) ==> e.kind == Kind::EmptySalt,
    {
        let bytes = salt.bytes();
        if bytes.len() == 0 {
            return Err(Error::new(Kind::EmptySalt));
        }
        let alphabet = Alphabet::from_salt(bytes);
        Ok(Weird { alphabet, salt })
    }

    /// A codec with the given alphabet.
    pub fn new(salt: T, alphabet: Alphabet) -> (r: Result<Weird<T>, Error>)
        ensures
            r is Ok <==> salt.salt_bytes().len() > 0,
            r matches Ok(w) ==> w.wf() && w.key() == salt.salt_bytes() && w.codec_alphabet()
                == alphabet,
            r matches Err(e) ==> e.kind == Kind::EmptySalt,
    {
        proof {
            use_type_invariant(&alphabet);
        }
        let bytes = salt.bytes();
        if bytes.len() == 0 {
            return Err(Error::new(Kind::EmptySalt));
        }
        Ok(Weird { alphabet, salt })
    }

    /// The codec's alphabet.
    pub fn alphabet(&self) -> (r: &Alphabet)
        ensures
            *r == self.codec_alphabet(),
            self.wf(),
    {
        proof {
            use_type_invariant(self);
            use_type_invariant(&self.alphabet);
        }
        &self.alphabet
    }

    /// Encodes `n` as 1 to 13 symbols, most significant digit first.
    pub fn encode(&self, n: u64) -> (r: String)
        ensures
            r@ == chars_of(encoded(self.order(), self.key(), n as nat)),
            vstd::utf8::encode_utf8(r@) == encoded(self.order(), self.key(), n as nat),
    {
        proof {
            use_type_invariant(self);
            use_type_invariant(&self.alphabet);
        }
        let mut buf = String::new();
        self.encode_into(n, &mut buf);
        proof {
            assert(buf@ =~= chars_of(encoded(self.order(), self.key(), n as nat)));
            self.lemma_encoded_ascii(n as nat);
        }
        buf
    }

    /// The encoding is ASCII, so its UTF-8 bytes are its symbols.
    proof fn lemma_encoded_ascii(&self, v: nat)
        requires
            self.wf(),
        ensures
            vstd::utf8::encode_utf8(chars_of(encoded(self.order(), self.key(), v))) == encoded(
                self.order(),
                self.key(),
                v,
            ),
    {
        let e = encoded(self.order(), self.key(), v);
        let cs = chars_of(e);
        lemma_digits_value(v);
        assert forall|i: int| 0 <= i < e.len() implies #[trigger] e[i] < 128 by {
            let d = digits(v)[i];
            lemma_mask_digit(d, mask(self.key(), i));
            assert(is_symbol(self.order()[(d ^ mask(self.key(), i)) as int]));
        }
        assert(vstd::utf8::is_ascii_chars(cs));
        vstd::utf8::is_ascii_chars_encode_utf8(cs);
        assert(vstd::utf8::encode_utf8(cs) =~= e);
    }

    /// Appends the encoding of `n` to `w`.
    pub fn encode_into(&self, n: u64, w: &mut String)
        ensures
            final(w)@ == old(w)@ + chars_of(encoded(self.order(), self.key(), n as nat)),
    {
        proof {
            use_type_invariant(self);
            use_type_invariant(&self.alphabet);
            lemma2_to64();
            lemma2_to64_rest();
        }
        let ghost v = n as nat;
        let ghost ds = digits(v);
        let ghost order = self.order();
        let ghost key = self.key();
        let ghost out = encoded(order, key, v);
        let ghost start = w@;
        let mut salt = self.salt.byte_source();
        if n == 0 {
            let d = salt.apply(0);
            proof {
                lemma_mask_digit(0, mask(key, 0));
                lemma_next_position(0, key.len());
            }
            push_char(w, self.alphabet.symbol_at(d) as char);
            proof {
                assert(ds =~= seq![0u8]);
                assert(chars_of(out) =~= seq![order[d as int] as char]);
            }
            return ;
        }
        let mut n = n;
        let ghost mut r: nat;
        let ghost mut j: nat;
        let ghost mut e: nat;
        let top = (n >> 60u64) as u8;
        proof {
            assert((n >> 60u64) < 16) by (bit_vector);
        }
        if top == 0 {
            let shifted = (n << 4u64) | 1;
            let lz = shifted.leading_zeros();
            proof {
                lemma_register_skip(n, shifted, lz as u64);
                lemma_padded_len(v, (12 - lz / 5) as nat);
            }
            n = shifted << (lz / 5 * 5);
            proof {
                r = v;
                j = (12 - lz / 5) as nat;
                e = 0;
                assert(ds.subrange(0, 0) =~= Seq::<u8>::empty());
                assert(chars_of(out.subrange(0, 0)) =~= Seq::<char>::empty());
                assert(ds.subrange(0, ds.len() as int) =~= ds);
            }
        } else {
            proof {
                lemma_register_top(n);
            }
            let shifted = (n << 4u64) | 1;
            let d = salt.apply(top);
            proof {
                lemma_mask_digit(top, mask(key, 0));
                lemma_next_position(0, key.len());
                lemma_padded_len(v % pow2(60), 12);
            }
            push_char(w, self.alphabet.symbol_at(d) as char);
            proof {
                r = v % pow2(60);
                j = 12;
                e = 1;
                assert(ds[0] == top);
                assert(ds.subrange(1, ds.len() as int) =~= padded(r, 12));
                assert(chars_of(out.subrange(0, 1)) =~= seq![order[d as int] as char]);
            }
            n = shifted;
        }
        proof {
            lemma_digits_len(v);
        }
        while n != STOP_BIT
            invariant
                j <= 12,
                r < pow2(5 * j),
                n == register(r, j),
                e + j == ds.len(),
                ds == digits(v),
                out == encoded(order, key, v),
                ds.subrange(e as int, ds.len() as int) == padded(r, j),
                order == self.order(),
                key == self.key(),
                key.len() > 0,
                self.codec_alphabet().wf(),
                salt.wf(),
                salt.salt() == key,
                salt.position() == e % key.len(),
                w@ == start + chars_of(out.subrange(0, e as int)),
            decreases j,
        {
            proof {
                if j == 0 {
                    lemma_register_empty(r);
                }
                lemma_register_step(n, r, j);
                lemma_padded_split(r, j);
                lemma_next_position(e, key.len());
            }
            let d = (n >> 59u64) as u8;
            let m = salt.apply(d);
            proof {
                lemma_mask_digit(d, mask(key, e as int));
                assert(ds[e as int] == ds.subrange(e as int, ds.len() as int)[0]);
                assert(ds[e as int] == d);
            }
            push_char(w, self.alphabet.symbol_at(m) as char);
            n = n << 5u64;
            proof {
                assert(chars_of(out.subrange(0, (e + 1) as int)) =~= chars_of(out.subrange(0, e as int)).push(
                    order[m as int] as char,
                ));
                let rest = ds.subrange(e as int, ds.len() as int);
                assert(ds.subrange((e + 1) as int, ds.len() as int) =~= rest.drop_first());
                r = r % pow2(5 * (j - 1) as nat);
                j = (j - 1) as nat;
                e = e + 1;
            }
        }
        proof {
            if j > 0 {
                lemma_register_step(n, r, j);
            }
            assert(out.subrange(0, e as int) =~= out);
        }
    }

    /// Decodes a text into the value it encodes.
    pub fn decode(&self, input: &str) -> (r: Result<u64, Error>)
        ensures
            match r {
                Ok(n) => decoding(self.order(), self.key(), input.spec_bytes()) == Ok::<u64, Kind>(n),
                Err(e) => decoding(self.order(), self.key(), input.spec_bytes()) == Err::<u64, Kind>(
                    e.kind,
                ),
            },
    {
        proof {
            use_type_invariant(self);
            use_type_invariant(&self.alphabet);
            lemma2_to64();
            lemma2_to64_rest();
        }
        let ghost order = self.order();
        let ghost key = self.key();
        let bytes = input.as_bytes();
        let ghost s = bytes@;
        let len = bytes.len();
        if len == 0 {
            return Err(Error::new(Kind::EmptyString));
        }
        if len > 13 {
            return Err(Error::new(Kind::OutOfRange));
        }
        let ghost ds = unmasked(order, key, s);
        let mut salt = self.salt.byte_source();
        let shift = (5 * (len - 1)) as u64;
        proof {
            vstd::bits::lemma_u64_shl_is_mul(1u64, shift);
            lemma_pow2_strictly_increases(shift as nat, 64);
        }
        let mut place: u64 = 1u64 << shift;
        let mut n: u64 = 0;
        proof {
            assert(ds.subrange(0, 0) =~= Seq::<u8>::empty());
            assert(value_of(Seq::<u8>::empty()) == 0);
        }
        let mut idx: usize = 0;
        while idx < len
            invariant
                idx <= len,
                len == s.len(),
                1 <= len <= 13,
                s == input.spec_bytes(),
                bytes@ == s,
                ds == unmasked(order, key, s),
                order == self.order(),
                key == self.key(),
                key.len() > 0,
                self.codec_alphabet().wf(),
                salt.wf(),
                salt.salt() == key,
                salt.position() == (idx as nat) % key.len(),
                forall|k: int| 0 <= k < idx ==> canonical_value(#[trigger] s[k]) >= 0,
                idx < len ==> place == pow2(5 * (len - 1 - idx) as nat),
                n == (value_of(ds.subrange(0, idx as int)) * pow2(5 * (len - idx) as nat)) % pow2(64),
            decreases len - idx,
        {
            let u = bytes[idx];
            let digit = self.alphabet.digit_of(u);
            if digit == -1 {
                proof {
                    self.lemma_first_rejected(s, idx as int);
                }
                return Err(Error::new(Kind::InvalidDigit(idx, u)));
            }
            if digit == -2 {
                proof {
                    self.lemma_first_rejected(s, idx as int);
                }
                return Err(Error::new(Kind::CheckDigitUnsupported(idx, u)));
            }
            proof {
                lemma_next_position(idx as nat, key.len());
                assert(canonical_value(u) >= 0);
                assert(0 <= digit < 32);
                lemma_mask_digit(digit as u8, mask(key, idx as int));
            }
            let digit = salt.apply(digit as u8);
            proof {
                lemma2_to64();
                lemma2_to64_rest();
                let prefix = ds.subrange(0, idx as int);
                assert(ds.subrange(0, idx + 1) =~= prefix.push(digit));
                lemma_value_of_push(prefix, digit);
                let p = pow2(5 * (len - 1 - idx) as nat);
                lemma_pow2_adds(5 * (len - 1 - idx) as nat, 5);
                assert(5 * (len - 1 - idx) as nat + 5 == 5 * (len - idx) as nat);
                assert(pow2(5 * (len - idx) as nat) == p * 32);
                self.lemma_accumulate(n, value_of(prefix), digit, place, p);
                assert(pow2(5 * (len - (idx + 1)) as nat) == p);
            }
            n = n.wrapping_add((digit as u64).wrapping_mul(place));
            proof {
                if idx + 1 < len {
                    lemma_pow2_adds(5 * (len - 2 - idx) as nat, 5);
                    assert(5 * (len - 2 - idx) as nat + 5 == 5 * (len - 1 - idx) as nat);
                }
            }
            place = place / 32;
            idx = idx + 1;
        }
        proof {
            assert(ds.subrange(0, len as int) =~= ds);
            assert(5 * (len - idx) as nat == 0);
            lemma2_to64();
            assert(pow2(5 * (len - idx) as nat) == 1);
            assert(idx == len);
            assert(value_of(ds.subrange(0, idx as int)) == value_of(ds));
            let a = value_of(ds.subrange(0, idx as int));
            let q = pow2(5 * (len - idx) as nat);
            assert(a * q == value_of(ds)) by (nonlinear_arith)
                requires
                    q == 1,
                    a == value_of(ds),
            {
            }
            assert(n == value_of(ds) % pow2(64));
            assert(!has_rejected(s));
            vstd::arithmetic::power2::lemma_pow2_pos(64);
        }
        Ok(n)
    }

    /// The byte at `i` is the first that is no symbol.
    proof fn lemma_first_rejected(&self, s: Seq<u8>, i: int)
        requires
            0 <= i < s.len(),
            canonical_value(s[i]) < 0,
            forall|k: int| 0 <= k < i ==> canonical_value(#[trigger] s[k]) >= 0,
        ensures
            has_rejected(s),
            first_rejected(s) == i,
    {
        let f = first_rejected(s);
        assert(0 <= f < s.len() && canonical_value(s[f]) < 0);
        if f < i {
            assert(canonical_value(s[f]) >= 0);
        }
        if f > i {
            assert(canonical_value(s[i]) >= 0);
        }
    }

    /// One step of the place-value sum, modulo 2^64.
    proof fn lemma_accumulate(&self, n: u64, a: nat, d: u8, place: u64, p: nat)
        requires
            place == p,
            n == (a * (p * 32)) % pow2(64),
            pow2(64) == 0x1_0000_0000_0000_0000,
        ensures
            n.wrapping_add((d as u64).wrapping_mul(place)) == ((a * 32 + d) * p) as int % (pow2(64) as int),
    {
        let m = pow2(64) as int;
        let prod = (d as u64).wrapping_mul(place);
        assert(prod == (d as int * place as int) % m);
        vstd::arithmetic::div_mod::lemma_add_mod_noop(n as int, d as int * place as int, m);
        vstd::arithmetic::div_mod::lemma_add_mod_noop((a * (p * 32)) as int, d as int * place as int, m);
        vstd::arithmetic::div_mod::lemma_mod_twice((a * (p * 32)) as int, m);
        assert((a * (p * 32)) + d * p == (a * 32 + d) * p) by (nonlinear_arith);
        assert(n.wrapping_add(prod) == (n as int + prod as int) % m);
        vstd::arithmetic::div_mod::lemma_mod_twice(d as int * place as int, m);
    }
}

} // verus!
