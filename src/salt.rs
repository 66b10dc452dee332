use vstd::prelude::*;
use vstd::string::StringSliceAdditionalSpecFns;

verus! {

/// A cursor over a non-empty salt that yields its bytes over and over.
pub struct ByteSource<'a> {
    idx: usize,
    data: &'a [u8],
}

impl<'a> ByteSource<'a> {
    /// The bytes that the cursor walks.
    pub closed spec fn salt(&self) -> Seq<u8> {
        self.data@
    }

    /// The index of the byte that comes next.
    pub closed spec fn position(&self) -> nat {
        (self.idx as nat) % (self.data@.len())
    }

    pub closed spec fn wf(&self) -> bool {
        &&& self.data@.len() > 0
        &&& self.idx <= self.data@.len()
    }

    /// A cursor at the start of `data`.
    pub fn new(data: &'a [u8]) -> (r: ByteSource<'a>)
        requires
            data@.len() > 0,
        ensures
            r.wf(),
            r.salt() == data@,
            r.position() == 0,
    {
        ByteSource { idx: 0, data }
    }

    /// Yields the byte at the cursor and moves on, back to the start after the last byte.
    pub fn next(&mut self) -> (r: u8)
        requires
            old(self).wf(),
        ensures
            final(self).wf(),
            final(self).salt() == old(self).salt(),
            r == old(self).salt()[old(self).position() as int],
            final(self).position() == (old(self).position() + 1) % old(self).salt().len(),
    {
        if self.idx == self.data.len() {
            self.idx = 0;
        }
        let ret = self.data[self.idx];
        self.idx = self.idx + 1;
        proof {
            let len = self.data@.len();
            vstd::arithmetic::div_mod::lemma_small_mod((self.idx - 1) as nat, len);
            if self.idx < len {
                vstd::arithmetic::div_mod::lemma_small_mod(self.idx as nat, len);
            } else {
                vstd::arithmetic::div_mod::lemma_mod_self_0(len as int);
            }
        }
        ret
    }

    /// Masks a digit with the next byte of the salt: `u ^ (next % 32)`.
    pub fn apply(&mut self, u: u8) -> (r: u8)
        requires
            old(self).wf(),
        ensures
            final(self).wf(),
            final(self).salt() == old(self).salt(),
            r == u ^ (old(self).salt()[old(self).position() as int] % 32),
            final(self).position() == (old(self).position() + 1) % old(self).salt().len(),
    {
        let x = self.next() % 32;
        u ^ x
    }
}

/// A source of salt bytes for a codec.
pub trait Salt {
    /// The salt's bytes.
    spec fn salt_bytes(&self) -> Seq<u8>;

    fn bytes(&self) -> (r: &[u8])
        ensures
            r@ == self.salt_bytes(),
    ;

    /// A fresh cursor over the salt's bytes.
    fn byte_source(&self) -> (r: ByteSource<'_>)
        requires
            self.salt_bytes().len() > 0,
        ensures
            r.wf(),
            r.salt() == self.salt_bytes(),
            r.position() == 0,
    ;
}

impl Salt for String {
    open spec fn salt_bytes(&self) -> Seq<u8> {
        vstd::utf8::encode_utf8(self@)
    }

    fn bytes(&self) -> (r: &[u8]) {
        self.as_str().as_bytes()
    }

    fn byte_source(&self) -> (r: ByteSource<'_>) {
        ByteSource::new(self.as_str().as_bytes())
    }
}

impl<'s> Salt for &'s str {
    open spec fn salt_bytes(&self) -> Seq<u8> {
        (*self).spec_bytes()
    }

    fn bytes(&self) -> (r: &[u8]) {
        (*self).as_bytes()
    }

    fn byte_source(&self) -> (r: ByteSource<'_>) {
        ByteSource::new((*self).as_bytes())
    }
}

impl Salt for Vec<u8> {
    open spec fn salt_bytes(&self) -> Seq<u8> {
        self@
    }

    fn bytes(&self) -> (r: &[u8]) {
        self.as_slice()
    }

    fn byte_source(&self) -> (r: ByteSource<'_>) {
        ByteSource::new(self.as_slice())
    }
}

} // verus!
