//! Tables of functions, whose operations take encoded indices and lengths.
use crate::codec::Codec;
use crate::traps::Trap;
use crate::wasm::Width;
use vstd::prelude::*;

verus! {

/// A table of function references, by number; a null reference is none.
pub struct AnTable {
    pub codec: Codec,
    pub elems: Vec<Option<u32>>,
    pub max: u32,
}

/// The elements with others written over them from `d` on.
pub open spec fn replaced(s: Seq<Option<u32>>, d: int, data: Seq<Option<u32>>) -> Seq<
    Option<u32>,
> {
    Seq::new(
        s.len(),
        |j: int|
            if d <= j < d + data.len() {
                data[j - d]
            } else {
                s[j]
            },
    )
}

impl AnTable {
    /// Its size fits in 32 bits.
    pub open spec fn wf(self) -> bool {
        self.codec.wf() && self.elems@.len() <= u32::MAX
    }

    /// Whether three operands are codewords.
    pub open spec fn operands_ok(self, x: int, y: int, z: int) -> bool {
        self.codec.is_codeword(x) && self.codec.is_codeword(y) && self.codec.is_codeword(z)
    }

    /// A table of null references.
    pub fn new(codec: Codec, size: u32, max: u32) -> (t: AnTable)
        requires
            codec.wf(),
        ensures
            t.wf(),
            t.codec == codec,
            t.max == max,
            t.elems@ == Seq::new(size as nat, |i: int| None::<u32>),
    {
        let mut elems: Vec<Option<u32>> = Vec::new();
        let mut i: u32 = 0;
        while i < size
            invariant
                i <= size,
                elems@ == Seq::new(i as nat, |j: int| None::<u32>),
            decreases size - i,
        {
            elems.push(None);
            i = i + 1;
            assert(elems@ =~= Seq::new(i as nat, |j: int| None::<u32>));
        }
        assert(elems@ =~= Seq::new(size as nat, |i: int| None::<u32>));
        AnTable { codec, elems, max }
    }

    /// The encoded size.
    pub fn size(&self) -> (x: u128)
        requires
            self.wf(),
        ensures
            x == self.codec.enc(self.elems@.len() as int),
    {
        self.codec.encode(Width::W32, self.elems.len() as u64)
    }

    /// Grows the table by an encoded number of elements. The result is the encoded size it had,
    /// or the encoding of minus one where it cannot grow so far.
    pub fn grow(&mut self, elem: Option<u32>, delta: u128) -> (r: Result<u128, Trap>)
        requires
            old(self).wf(),
            old(self).codec.in_band(Width::W32, delta as int),
        ensures
            final(self).wf(),
            final(self).codec == old(self).codec,
            final(self).max == old(self).max,
            r is Ok <==> old(self).codec.is_codeword(delta as int),
            r matches Err(t) ==> t == Trap::AnCodewordInvalid && *final(self) == *old(self),
            r matches Ok(x) ==> {
                let d = old(self).codec.dec(delta as int);
                let n = old(self).elems@.len();
                if n + d <= old(self).max {
                    &&& x == old(self).codec.enc(n as int)
                    &&& final(self).elems@ == old(self).elems@ + Seq::new(d as nat, |i: int| elem)
                } else {
                    &&& x == old(self).codec.enc(0xffff_ffff)
                    &&& *final(self) == *old(self)
                }
            },
    {
        let d: u64 = match self.codec.decode(Width::W32, delta) {
            Ok(n) => n,
            Err(t) => {
                return Err(t);
            },
        };
        let n: u64 = self.elems.len() as u64;
        if n + d > self.max as u64 {
            return Ok(self.codec.encode(Width::W32, 0xffff_ffff));
        }
        let ghost before = self.elems@;
        let mut i: u64 = 0;
        while i < d
            invariant
                i <= d,
                n == before.len(),
                n + d <= self.max,
                self.codec == old(self).codec,
                self.max == old(self).max,
                self.elems@ == before + Seq::new(i as nat, |j: int| elem),
            decreases d - i,
        {
            self.elems.push(elem);
            i = i + 1;
            assert(self.elems@ =~= before + Seq::new(i as nat, |j: int| elem));
        }
        assert(self.elems@ =~= before + Seq::new(d as nat, |j: int| elem));
        Ok(self.codec.encode(Width::W32, n))
    }

    /// Writes elements over others.
    fn put(&mut self, d: usize, data: &Vec<Option<u32>>)
        requires
            old(self).wf(),
            d + data@.len() <= old(self).elems@.len(),
        ensures
            final(self).wf(),
            final(self).codec == old(self).codec,
            final(self).max == old(self).max,
            final(self).elems@ == replaced(old(self).elems@, d as int, data@),
    {
        let ghost before = self.elems@;
        let total: usize = self.elems.len();
        let mut k: usize = 0;
        while k < data.len()
            invariant
                self.wf(),
                self.codec == old(self).codec,
                self.max == old(self).max,
                total == before.len(),
                k <= data@.len(),
                d + data@.len() <= total,
                self.elems@ == replaced(before, d as int, data@.take(k as int)),
            decreases data@.len() - k,
        {
            self.elems.set(d + k, data[k]);
            k = k + 1;
            assert(self.elems@ =~= replaced(before, d as int, data@.take(k as int)));
        }
        assert(data@.take(k as int) =~= data@);
        assert(self.elems@ =~= replaced(before, d as int, data@));
    }

    /// A part of a list of elements.
    fn part(elems: &Vec<Option<u32>>, s: usize, n: usize) -> (r: Vec<Option<u32>>)
        requires
            s + n <= elems@.len(),
        ensures
            r@ == elems@.subrange(s as int, s + n),
    {
        let total: usize = elems.len();
        let mut out: Vec<Option<u32>> = Vec::new();
        let mut k: usize = 0;
        while k < n
            invariant
                k <= n,
                total == elems@.len(),
                s + n <= total,
                out@ == elems@.subrange(s as int, s + k),
            decreases n - k,
        {
            out.push(elems[s + k]);
            k = k + 1;
            assert(out@ =~= elems@.subrange(s as int, s + k));
        }
        out
    }

    /// Sets `len` elements from `dst` on. The operands are encoded; each is checked.
    pub fn fill(&mut self, dst: u128, elem: Option<u32>, len: u128) -> (r: Result<(), Trap>)
        requires
            old(self).wf(),
            old(self).codec.in_band(Width::W32, dst as int),
            old(self).codec.in_band(Width::W32, len as int),
        ensures
            ({
                let c = old(self).codec;
                let (d, n) = (c.dec(dst as int), c.dec(len as int));
                if !c.is_codeword(dst as int) || !c.is_codeword(len as int) {
                    r == Err::<(), Trap>(Trap::AnCodewordInvalid) && *final(self) == *old(self)
                } else if d + n > old(self).elems@.len() {
                    r == Err::<(), Trap>(Trap::TableOutOfBounds) && *final(self) == *old(self)
                } else {
                    &&& r is Ok
                    &&& final(self).wf()
                    &&& final(self).codec == c
                    &&& final(self).max == old(self).max
                    &&& final(self).elems@ == replaced(
                        old(self).elems@,
                        d,
                        Seq::new(n as nat, |i: int| elem),
                    )
                }
            }),
    {
        let d: u64 = match self.codec.decode(Width::W32, dst) {
            Ok(n) => n,
            Err(t) => {
                return Err(t);
            },
        };
        let n: u64 = match self.codec.decode(Width::W32, len) {
            Ok(n) => n,
            Err(t) => {
                return Err(t);
            },
        };
        if d + n > self.elems.len() as u64 {
            return Err(Trap::TableOutOfBounds);
        }
        let mut data: Vec<Option<u32>> = Vec::new();
        let mut i: u64 = 0;
        while i < n
            invariant
                i <= n,
                data@ == Seq::new(i as nat, |j: int| elem),
            decreases n - i,
        {
            data.push(elem);
            i = i + 1;
            assert(data@ =~= Seq::new(i as nat, |j: int| elem));
        }
        assert(data@ =~= Seq::new(n as nat, |j: int| elem));
        self.put(d as usize, &data);
        Ok(())
    }

    /// Copies `len` elements from `src` on to `dst` on; the ranges may overlap. The operands are
    /// encoded; each is checked.
    pub fn copy(&mut self, dst: u128, src: u128, len: u128) -> (r: Result<(), Trap>)
        requires
            old(self).wf(),
            old(self).codec.in_band(Width::W32, dst as int),
            old(self).codec.in_band(Width::W32, src as int),
            old(self).codec.in_band(Width::W32, len as int),
        ensures
            ({
                let c = old(self).codec;
                let (d, s, n) = (c.dec(dst as int), c.dec(src as int), c.dec(len as int));
                let size = old(self).elems@.len();
                if !old(self).operands_ok(dst as int, src as int, len as int) {
                    r == Err::<(), Trap>(Trap::AnCodewordInvalid) && *final(self) == *old(self)
                } else if d + n > size || s + n > size {
                    r == Err::<(), Trap>(Trap::TableOutOfBounds) && *final(self) == *old(self)
                } else {
                    &&& r is Ok
                    &&& final(self).wf()
                    &&& final(self).codec == c
                    &&& final(self).max == old(self).max
                    &&& final(self).elems@ == replaced(
                        old(self).elems@,
                        d,
                        old(self).elems@.subrange(s, s + n),
                    )
                }
            }),
    {
        let d: u64 = match self.codec.decode(Width::W32, dst) {
            Ok(n) => n,
            Err(t) => {
                return Err(t);
            },
        };
        let s: u64 = match self.codec.decode(Width::W32, src) {
            Ok(n) => n,
            Err(t) => {
                return Err(t);
            },
        };
        let n: u64 = match self.codec.decode(Width::W32, len) {
            Ok(n) => n,
            Err(t) => {
                return Err(t);
            },
        };
        let size: u64 = self.elems.len() as u64;
        if d + n > size || s + n > size {
            return Err(Trap::TableOutOfBounds);
        }
        let data: Vec<Option<u32>> = Self::part(&self.elems, s as usize, n as usize);
        self.put(d as usize, &data);
        Ok(())
    }

    /// Copies `len` elements from `src` on of a segment to `dst` on. The operands are encoded;
    /// each is checked.
    pub fn init(&mut self, segment: &Vec<Option<u32>>, dst: u128, src: u128, len: u128) -> (r:
        Result<(), Trap>)
        requires
            old(self).wf(),
            old(self).codec.in_band(Width::W32, dst as int),
            old(self).codec.in_band(Width::W32, src as int),
            old(self).codec.in_band(Width::W32, len as int),
        ensures
            ({
                let c = old(self).codec;
                let (d, s, n) = (c.dec(dst as int), c.dec(src as int), c.dec(len as int));
                if !old(self).operands_ok(dst as int, src as int, len as int) {
                    r == Err::<(), Trap>(Trap::AnCodewordInvalid) && *final(self) == *old(self)
                } else if d + n > old(self).elems@.len() || s + n > segment@.len() {
                    r == Err::<(), Trap>(Trap::TableOutOfBounds) && *final(self) == *old(self)
                } else {
                    &&& r is Ok
                    &&& final(self).wf()
                    &&& final(self).codec == c
                    &&& final(self).max == old(self).max
                    &&& final(self).elems@ == replaced(
                        old(self).elems@,
                        d,
                        segment@.subrange(s, s + n),
                    )
                }
            }),
    {
        let d: u64 = match self.codec.decode(Width::W32, dst) {
            Ok(n) => n,
            Err(t) => {
                return Err(t);
            },
        };
        let s: u64 = match self.codec.decode(Width::W32, src) {
            Ok(n) => n,
            Err(t) => {
                return Err(t);
            },
        };
        let n: u64 = match self.codec.decode(Width::W32, len) {
            Ok(n) => n,
            Err(t) => {
                return Err(t);
            },
        };
        let available: usize = segment.len();
        if d + n > self.elems.len() as u64 || s + n > available as u64 {
            return Err(Trap::TableOutOfBounds);
        }
        let data: Vec<Option<u32>> = Self::part(segment, s as usize, n as usize);
        self.put(d as usize, &data);
        Ok(())
    }

    /// The function that an indirect call through an encoded index reaches.
    pub fn call_indirect(&self, index: u128) -> (r: Result<u32, Trap>)
        requires
            self.wf(),
            self.codec.in_band(Width::W32, index as int),
        ensures
            ({
                let i = self.codec.dec(index as int);
                r == if !self.codec.is_codeword(index as int) {
                    Err::<u32, Trap>(Trap::AnCodewordInvalid)
                } else if i >= self.elems@.len() {
                    Err(Trap::TableOutOfBounds)
                } else {
                    match self.elems@[i] {
                        Some(f) => Ok(f),
                        None => Err(Trap::IndirectCallToNull),
                    }
                }
            }),
    {
        let i: u64 = match self.codec.decode(Width::W32, index) {
            Ok(n) => n,
            Err(t) => {
                return Err(t);
            },
        };
        if i >= self.elems.len() as u64 {
            return Err(Trap::TableOutOfBounds);
        }
        match self.elems[i as usize] {
            Some(f) => Ok(f),
            None => Err(Trap::IndirectCallToNull),
        }
    }
}

} // verus!
