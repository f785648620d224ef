//! The boundary between host and guest: arguments and results, and globals.
use crate::codec::Codec;
use crate::traps::Trap;
use crate::wasm::Width;
use vstd::prelude::*;

verus! {

/// What is done with the values that cross the boundary.
#[derive(Clone, Copy, Debug)]
pub struct Boundary {
    pub codec: Codec,
    pub an_encoding: bool,
    /// An offset added to the first value of a list that leaves the guest; zero outside of
    /// fault-injection runs.
    pub an_inject_codeword_fault: u64,
}

/// Raw values that fit their widths.
pub open spec fn fits(widths: Seq<Width>, raw: Seq<u64>) -> bool {
    widths.len() == raw.len() && forall|i: int|
        0 <= i < raw.len() ==> widths[i].has(#[trigger] raw[i] as int)
}

impl Boundary {
    /// Without encoding the constant is one.
    pub open spec fn wf(self) -> bool {
        self.codec.wf() && (!self.an_encoding ==> self.codec.a == 1)
    }

    /// Encoded words in the canonical range.
    pub open spec fn in_bands(self, widths: Seq<Width>, words: Seq<u128>) -> bool {
        widths.len() == words.len() && forall|i: int|
            0 <= i < words.len() ==> self.codec.in_band(widths[i], #[trigger] words[i] as int)
    }

    /// The word that is checked and decoded: the first one has the injected fault added.
    pub open spec fn arriving(self, words: Seq<u128>, i: int) -> int {
        if self.an_encoding && i == 0 {
            words[i] + self.an_inject_codeword_fault
        } else {
            words[i] as int
        }
    }

    /// The decoded value of a word that passed the check.
    pub open spec fn value(self, widths: Seq<Width>, words: Seq<u128>, i: int) -> int {
        self.codec.dec(self.arriving(words, i)) % widths[i].modulus()
    }

    /// Encodes values that enter the guest.
    pub fn encode_values(&self, widths: &Vec<Width>, raw: &Vec<u64>) -> (words: Vec<u128>)
        requires
            self.wf(),
            fits(widths@, raw@),
        ensures
            words@.len() == raw@.len(),
            self.in_bands(widths@, words@),
            forall|i: int|
                0 <= i < raw@.len() ==> #[trigger] words@[i] == self.codec.enc(raw@[i] as int),
    {
        let mut words: Vec<u128> = Vec::new();
        let mut i: usize = 0;
        while i < raw.len()
            invariant
                self.wf(),
                fits(widths@, raw@),
                i <= raw@.len(),
                words@.len() == i,
                forall|j: int|
                    0 <= j < i ==> #[trigger] words@[j] == self.codec.enc(raw@[j] as int)
                        && self.codec.in_band(widths@[j], words@[j] as int),
            decreases raw@.len() - i,
        {
            let x: u128 = self.codec.encode(widths[i], raw[i]);
            words.push(x);
            i = i + 1;
        }
        words
    }

    /// Checks and decodes values that leave the guest, in order. The first word that is not a
    /// codeword is a trap.
    pub fn decode_values(&self, widths: &Vec<Width>, words: &Vec<u128>) -> (r: Result<
        Vec<u64>,
        Trap,
    >)
        requires
            self.wf(),
            self.in_bands(widths@, words@),
        ensures
            r is Ok <==> forall|i: int|
                0 <= i < words@.len() ==> self.codec.is_codeword(#[trigger] self.arriving(words@, i)),
            r matches Err(t) ==> t == Trap::AnCodewordInvalid,
            r matches Ok(raw) ==> raw@.len() == words@.len() && forall|i: int|
                0 <= i < words@.len() ==> #[trigger] raw@[i] == self.value(widths@, words@, i)
                    && self.codec.is_codeword(self.arriving(words@, i)),
    {
        let mut raw: Vec<u64> = Vec::new();
        let mut i: usize = 0;
        while i < words.len()
            invariant
                self.wf(),
                self.in_bands(widths@, words@),
                i <= words@.len(),
                raw@.len() == i,
                forall|j: int|
                    0 <= j < i ==> self.codec.is_codeword(#[trigger] self.arriving(words@, j)),
                forall|j: int|
                    0 <= j < i ==> #[trigger] raw@[j] == self.value(widths@, words@, j),
            decreases words@.len() - i,
        {
            proof {
                self.codec.lemma_band(widths@[i as int]);
                assert(self.codec.in_band(widths@[i as int], words@[i as int] as int));
            }
            let x: u128 = if self.an_encoding && i == 0 {
                words[i] + self.an_inject_codeword_fault as u128
            } else {
                words[i]
            };
            assert(x == self.arriving(words@, i as int));
            match self.codec.check(x) {
                Err(t) => {
                    return Err(t);
                },
                Ok(_) => {},
            }
            let v: u128 = (x / (self.codec.a as u128)) % Codec::modulus_of(widths[i]);
            raw.push(v as u64);
            i = i + 1;
        }
        Ok(raw)
    }

    /// What enters the guest and leaves it again is unchanged, where no fault is injected.
    pub proof fn lemma_round_trip(self, widths: Seq<Width>, raw: Seq<u64>, words: Seq<u128>)
        requires
            self.wf(),
            fits(widths, raw),
            words.len() == raw.len(),
            forall|i: int|
                0 <= i < raw.len() ==> #[trigger] words[i] == self.codec.enc(raw[i] as int),
            self.an_inject_codeword_fault == 0,
        ensures
            forall|i: int|
                0 <= i < words.len() ==> self.codec.is_codeword(#[trigger] self.arriving(words, i))
                    && self.value(widths, words, i) == raw[i],
    {
        assert forall|i: int| 0 <= i < words.len() implies self.codec.is_codeword(
            #[trigger] self.arriving(words, i),
        ) && self.value(widths, words, i) == raw[i] by {
            assert(words[i] == self.codec.enc(raw[i] as int));
            self.codec.lemma_round_trip(widths[i], raw[i] as int);
            vstd::arithmetic::div_mod::lemma_small_mod(raw[i] as nat, widths[i].modulus() as nat);
        }
    }

    /// A fault that is not a multiple of the constant is found at the boundary.
    pub proof fn lemma_fault_found(self, words: Seq<u128>)
        requires
            self.wf(),
            self.an_encoding,
            words.len() > 0,
            self.codec.is_codeword(words[0] as int),
            !self.codec.is_codeword(self.an_inject_codeword_fault as int),
        ensures
            !self.codec.is_codeword(self.arriving(words, 0)),
    {
        self.codec.lemma_fault_detected(words[0] as int, self.an_inject_codeword_fault as int);
    }
}

/// A global of an integer type. Its storage holds the encoded value: the guest reads and writes
/// it as it is, and the host's accesses decode and encode.
#[derive(Clone, Copy, Debug)]
pub struct AnGlobal {
    pub codec: Codec,
    pub width: Width,
    pub slot: u128,
}

impl AnGlobal {
    /// The storage is in the canonical range; a faulty word may be.
    pub open spec fn wf(self) -> bool {
        self.codec.wf() && self.codec.in_band(self.width, self.slot as int)
    }

    /// A global with an initial value.
    pub fn new(codec: Codec, width: Width, n: u64) -> (g: AnGlobal)
        requires
            codec.wf(),
            width.has(n as int),
        ensures
            g.wf(),
            g.codec == codec,
            g.width == width,
            g.slot == codec.enc(n as int),
    {
        AnGlobal { codec, width, slot: codec.encode(width, n) }
    }

    /// The value, as the host sees it; a storage that holds no codeword is a trap.
    pub fn try_get(&self) -> (r: Result<u64, Trap>)
        requires
            self.wf(),
        ensures
            r is Ok <==> self.codec.is_codeword(self.slot as int),
            r matches Ok(n) ==> n == self.codec.dec(self.slot as int) && self.width.has(n as int),
            r matches Err(t) ==> t == Trap::AnCodewordInvalid,
    {
        self.codec.decode(self.width, self.slot)
    }

    /// The value, as the host sees it, of a storage that holds a codeword.
    pub fn get(&self) -> (n: u64)
        requires
            self.wf(),
            self.codec.is_codeword(self.slot as int),
        ensures
            n == self.codec.dec(self.slot as int),
            self.width.has(n as int),
    {
        proof {
            self.codec.lemma_valid(self.width, self.slot as int);
        }
        (self.slot / (self.codec.a as u128)) as u64
    }

    /// Sets the value from the host.
    pub fn set(&mut self, n: u64)
        requires
            old(self).wf(),
            old(self).width.has(n as int),
        ensures
            final(self).wf(),
            final(self).codec == old(self).codec,
            final(self).width == old(self).width,
            final(self).slot == old(self).codec.enc(n as int),
            final(self).codec.is_codeword(final(self).slot as int),
            final(self).codec.dec(final(self).slot as int) == n,
    {
        proof {
            self.codec.lemma_round_trip(self.width, n as int);
        }
        self.slot = self.codec.encode(self.width, n);
    }

    /// The encoded value, as the guest sees it.
    pub fn guest_get(&self) -> (x: u128)
        ensures
            x == self.slot,
    {
        self.slot
    }

    /// Sets the encoded value from the guest.
    pub fn guest_set(&mut self, x: u128)
        requires
            old(self).wf(),
            old(self).codec.in_band(old(self).width, x as int),
        ensures
            final(self).wf(),
            final(self).codec == old(self).codec,
            final(self).width == old(self).width,
            final(self).slot == x,
    {
        self.slot = x;
    }
}

} // verus!
