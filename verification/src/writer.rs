use vstd::prelude::*;

verus! {

/// What a buffer of `cap` bytes holds after `data` is written behind `out`:
/// all of it where it fits, else as much as fits.
pub open spec fn fill(out: Seq<u8>, data: Seq<u8>, cap: nat) -> Seq<u8> {
    if out.len() + data.len() <= cap {
        out + data
    } else {
        (out + data).take(cap as int)
    }
}

/// Writing `a` and then `b` leaves what writing `a + b` leaves.
pub proof fn lemma_fill_twice(out: Seq<u8>, a: Seq<u8>, b: Seq<u8>, cap: nat)
    requires
        out.len() <= cap,
    ensures
        fill(fill(out, a, cap), b, cap) == fill(out, a + b, cap),
{
    assert(out + (a + b) =~= (out + a) + b);
    if out.len() + a.len() > cap {
        assert(fill(fill(out, a, cap), b, cap) =~= (out + (a + b)).take(cap as int));
    } else if out.len() + a.len() + b.len() > cap {
        assert(fill(fill(out, a, cap), b, cap) =~= (out + (a + b)).take(cap as int));
    }
}

/// The two big-endian bytes of `v`.
pub open spec fn u16_bytes(v: u16) -> Seq<u8> {
    seq![(v / 0x100) as u8, (v % 0x100) as u8]
}

/// The four big-endian two's-complement bytes of `v`.
pub open spec fn i32_bytes(v: i32) -> Seq<u8> {
    let n: int = if v >= 0 {
        v as int
    } else {
        v + 0x1_0000_0000
    };
    seq![
        (n / 0x100_0000) as u8,
        (n / 0x1_0000 % 0x100) as u8,
        (n / 0x100 % 0x100) as u8,
        (n % 0x100) as u8,
    ]
}

/// A buffer of fixed capacity that is written front to back.  Bytes that do
/// not fit are dropped.
pub struct Writer {
    bytes: Vec<u8>,
    cap: usize,
}

impl View for Writer {
    type V = Seq<u8>;

    closed spec fn view(&self) -> Seq<u8> {
        self.bytes@
    }
}

impl Writer {
    /// How many bytes the buffer takes.
    pub closed spec fn capacity(&self) -> nat {
        self.cap as nat
    }

    #[verifier::type_invariant]
    closed spec fn fits(&self) -> bool {
        self.bytes@.len() <= self.cap
    }

    /// An empty buffer of `cap` bytes.
    pub fn new(cap: usize) -> (w: Writer)
        ensures
            w@ == Seq::<u8>::empty(),
            w.capacity() == cap,
    {
        Writer { bytes: Vec::new(), cap }
    }

    /// What has been written.
    pub fn as_slice(&self) -> (r: &[u8])
        ensures
            r@ == self@,
            r@.len() <= self.capacity(),
    {
        proof {
            use_type_invariant(self);
        }
        self.bytes.as_slice()
    }

    /// Writes `data`, as much of it as fits.
    pub fn write(&mut self, data: &[u8])
        ensures
            final(self)@ == fill(old(self)@, data@, old(self).capacity()),
            final(self).capacity() == old(self).capacity(),
            final(self)@.len() <= final(self).capacity(),
    {
        proof {
            use_type_invariant(&*self);
        }
        let mut bytes: Vec<u8> = Vec::new();
        std::mem::swap(&mut bytes, &mut self.bytes);
        let cap = self.cap;
        let mut i: usize = 0;
        let ghost start = bytes@;
        while i < data.len() && bytes.len() < cap
            invariant
                i <= data@.len(),
                start.len() <= cap,
                bytes@ == start + data@.take(i as int),
                bytes@.len() <= cap,
            decreases data@.len() - i,
        {
            bytes.push(data[i]);
            i = i + 1;
            assert(data@.take(i as int) =~= data@.take(i - 1).push(data@[i - 1]));
        }
        if i == data.len() {
            assert(data@.take(i as int) =~= data@);
        } else {
            assert(bytes@ =~= (start + data@).take(cap as int));
        }
        self.bytes = bytes;
    }

    /// Writes the two big-endian bytes of `v`, as many as fit.
    pub fn write_u16(&mut self, v: u16)
        ensures
            final(self)@ == fill(old(self)@, u16_bytes(v), old(self).capacity()),
            final(self).capacity() == old(self).capacity(),
            final(self)@.len() <= final(self).capacity(),
    {
        let b = [(v / 0x100) as u8, (v % 0x100) as u8];
        assert(b@ =~= u16_bytes(v));
        self.write(b.as_slice());
    }

    /// Writes the four big-endian two's-complement bytes of `v`, as many as
    /// fit.
    pub fn write_i32(&mut self, v: i32)
        ensures
            final(self)@ == fill(old(self)@, i32_bytes(v), old(self).capacity()),
            final(self).capacity() == old(self).capacity(),
            final(self)@.len() <= final(self).capacity(),
    {
        let n: u32 = if v >= 0 {
            v as u32
        } else {
            ((v + 0x7fff_ffff + 1) as u32) + 0x8000_0000
        };
        let b = [
            (n / 0x100_0000) as u8,
            (n / 0x1_0000 % 0x100) as u8,
            (n / 0x100 % 0x100) as u8,
            (n % 0x100) as u8,
        ];
        assert(b@ =~= i32_bytes(v));
        self.write(b.as_slice());
    }
}

} // verus!
