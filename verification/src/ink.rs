use vstd::prelude::*;

verus! {

/// One colored cell of the pixel canvas: four channel bytes.
#[derive(Debug, Clone, Copy, PartialEq, Eq, Structural)]
pub struct RGBA {
    pub r: u8,
    pub g: u8,
    pub b: u8,
    pub a: u8,
}

impl RGBA {
    pub fn new(r: u8, g: u8, b: u8, a: u8) -> (c: Self)
        ensures
            c == (RGBA { r, g, b, a }),
    {
        RGBA { r, g, b, a }
    }

    pub fn new_opaque(r: u8, g: u8, b: u8) -> (c: Self)
        ensures
            c == (RGBA { r, g, b, a: 255u8 }),
    {
        RGBA { r, g, b, a: 255 }
    }

    /// The four channel bytes of one cell, in serialization order.
    pub open spec fn spec_bytes(self) -> Seq<u8> {
        seq![self.r, self.g, self.b, self.a]
    }

    pub fn to_be_bytes(&self) -> (v: Vec<u8>)
        ensures
            v@ == self.spec_bytes(),
    {
        let mut v: Vec<u8> = Vec::new();
        v.push(self.r);
        v.push(self.g);
        v.push(self.b);
        v.push(self.a);
        proof {
            assert(v@ =~= self.spec_bytes());
        }
        v
    }
}

/// The flattened byte form of a cell sequence: each cell's four channel
/// bytes, in the order the cells were pushed.
pub open spec fn spec_layer_bytes(cells: Seq<RGBA>) -> Seq<u8>
    decreases cells.len(),
{
    if cells.len() == 0 {
        Seq::empty()
    } else {
        spec_layer_bytes(cells.drop_last()) + cells.last().spec_bytes()
    }
}

pub proof fn lemma_layer_bytes_len(cells: Seq<RGBA>)
    ensures
        spec_layer_bytes(cells).len() == 4 * cells.len(),
    decreases cells.len(),
{
    if cells.len() > 0 {
        lemma_layer_bytes_len(cells.drop_last());
    }
}

/// Append-only buffer of colored cells, in row-major order.
#[derive(Debug)]
pub struct InkLayer {
    ink_buffer: Vec<RGBA>,
}

impl View for InkLayer {
    type V = Seq<RGBA>;

    closed spec fn view(&self) -> Seq<RGBA> {
        self.ink_buffer@
    }
}

impl InkLayer {
    pub fn empty() -> (l: Self)
        ensures
            l@ == Seq::<RGBA>::empty(),
    {
        InkLayer { ink_buffer: Vec::new() }
    }

    pub fn new(ink_buffer: Vec<RGBA>) -> (l: Self)
        ensures
            l@ == ink_buffer@,
    {
        InkLayer { ink_buffer }
    }

    pub fn len(&self) -> (n: usize)
        ensures
            n == self@.len(),
    {
        self.ink_buffer.len()
    }

    pub fn push_ink(&mut self, ink: RGBA)
        ensures
            final(self)@ == old(self)@.push(ink),
    {
        self.ink_buffer.push(ink);
    }

    pub fn get(&self, index: usize) -> (r: Option<&RGBA>)
        ensures
            index < self@.len() ==> (r matches Some(c) && *c == self@[index as int]),
            index >= self@.len() ==> r is None,
    {
        if index < self.ink_buffer.len() {
            Some(&self.ink_buffer[index])
        } else {
            None
        }
    }

    pub fn get_mut(&mut self, index: usize) -> (r: &mut RGBA)
        requires
            index < old(self)@.len(),
        ensures
            *r == old(self)@[index as int],
            final(self)@ == old(self)@.update(index as int, *final(r)),
    {
        &mut self.ink_buffer[index]
    }

    pub fn to_be_bytes(&self) -> (v: Vec<u8>)
        ensures
            v@ == spec_layer_bytes(self@),
    {
        let mut v: Vec<u8> = Vec::new();
        let n = self.ink_buffer.len();
        let mut i: usize = 0;
        while i < n
            invariant
                n == self@.len(),
                i <= n,
                v@ == spec_layer_bytes(self@.take(i as int)),
            decreases n - i,
        {
            let c = self.ink_buffer[i];
            v.push(c.r);
            v.push(c.g);
            v.push(c.b);
            v.push(c.a);
            proof {
                let pre = self@.take(i as int);
                let cur = self@.take(i + 1 as int);
                assert(cur.drop_last() =~= pre);
                assert(cur.last() == self@[i as int]);
                assert(v@ =~= spec_layer_bytes(pre) + self@[i as int].spec_bytes());
            }
            i = i + 1;
        }
        proof {
            assert(self@.take(n as int) =~= self@);
        }
        v
    }
}

/// The named component colors the generator emits.
pub struct Ink;

impl Ink {
    /// The feedthrough ("cross") trace of a bus row.
    pub open spec fn spec_cross() -> RGBA {
        RGBA { r: 102, g: 120, b: 142, a: 255 }
    }

    #[verifier::when_used_as_spec(spec_cross)]
    pub fn cross() -> (c: RGBA)
        ensures
            c == Self::spec_cross(),
    {
        RGBA { r: 102, g: 120, b: 142, a: 255 }
    }

    /// The neutral gray trace.
    pub open spec fn spec_tc_gray() -> RGBA {
        RGBA { r: 42, g: 53, b: 65, a: 255 }
    }

    #[verifier::when_used_as_spec(spec_tc_gray)]
    pub fn tc_gray() -> (c: RGBA)
        ensures
            c == Self::spec_tc_gray(),
    {
        RGBA { r: 42, g: 53, b: 65, a: 255 }
    }

    /// The memory write pin.
    pub open spec fn spec_write() -> RGBA {
        RGBA { r: 77, g: 56, b: 62, a: 255 }
    }

    #[verifier::when_used_as_spec(spec_write)]
    pub fn write() -> (c: RGBA)
        ensures
            c == Self::spec_write(),
    {
        RGBA { r: 77, g: 56, b: 62, a: 255 }
    }

    /// The memory read pin.
    pub open spec fn spec_read() -> RGBA {
        RGBA { r: 46, g: 71, b: 93, a: 255 }
    }

    #[verifier::when_used_as_spec(spec_read)]
    pub fn read() -> (c: RGBA)
        ensures
            c == Self::spec_read(),
    {
        RGBA { r: 46, g: 71, b: 93, a: 255 }
    }

    /// The AND gate: a `Match`-polarity row's accompanying color.
    pub open spec fn spec_and() -> RGBA {
        RGBA { r: 255, g: 198, b: 99, a: 255 }
    }

    #[verifier::when_used_as_spec(spec_and)]
    pub fn and() -> (c: RGBA)
        ensures
            c == Self::spec_and(),
    {
        RGBA { r: 255, g: 198, b: 99, a: 255 }
    }

    /// The NOR gate: an `Invert`-polarity row's accompanying color.
    pub open spec fn spec_nor() -> RGBA {
        RGBA { r: 48, g: 217, b: 255, a: 255 }
    }

    #[verifier::when_used_as_spec(spec_nor)]
    pub fn nor() -> (c: RGBA)
        ensures
            c == Self::spec_nor(),
    {
        RGBA { r: 48, g: 217, b: 255, a: 255 }
    }
}

/// The 16-entry cycling bus palette used for unasserted output lanes,
/// indexed modulo 16.
pub open spec fn spec_trace_color(i: int) -> RGBA {
    let k = i % 16;
    if k == 0 {
        RGBA { r: 42, g: 53, b: 65, a: 255 }
    } else if k == 1 {
        RGBA { r: 159, g: 168, b: 174, a: 255 }
    } else if k == 2 {
        RGBA { r: 161, g: 85, b: 94, a: 255 }
    } else if k == 3 {
        RGBA { r: 161, g: 108, b: 86, a: 255 }
    } else if k == 4 {
        RGBA { r: 161, g: 133, b: 86, a: 255 }
    } else if k == 5 {
        RGBA { r: 161, g: 152, b: 86, a: 255 }
    } else if k == 6 {
        RGBA { r: 153, g: 161, b: 86, a: 255 }
    } else if k == 7 {
        RGBA { r: 136, g: 161, b: 86, a: 255 }
    } else if k == 8 {
        RGBA { r: 108, g: 161, b: 86, a: 255 }
    } else if k == 9 {
        RGBA { r: 86, g: 161, b: 141, a: 255 }
    } else if k == 10 {
        RGBA { r: 86, g: 147, b: 161, a: 255 }
    } else if k == 11 {
        RGBA { r: 86, g: 123, b: 161, a: 255 }
    } else if k == 12 {
        RGBA { r: 86, g: 98, b: 161, a: 255 }
    } else if k == 13 {
        RGBA { r: 102, g: 86, b: 161, a: 255 }
    } else if k == 14 {
        RGBA { r: 135, g: 86, b: 161, a: 255 }
    } else {
        RGBA { r: 161, g: 85, b: 151, a: 255 }
    }
}

pub fn trace_color(i: u64) -> (c: RGBA)
    ensures
        c == spec_trace_color(i as int),
{
    let k = i % 16;
    if k == 0 {
        RGBA { r: 42, g: 53, b: 65, a: 255 }
    } else if k == 1 {
        RGBA { r: 159, g: 168, b: 174, a: 255 }
    } else if k == 2 {
        RGBA { r: 161, g: 85, b: 94, a: 255 }
    } else if k == 3 {
        RGBA { r: 161, g: 108, b: 86, a: 255 }
    } else if k == 4 {
        RGBA { r: 161, g: 133, b: 86, a: 255 }
    } else if k == 5 {
        RGBA { r: 161, g: 152, b: 86, a: 255 }
    } else if k == 6 {
        RGBA { r: 153, g: 161, b: 86, a: 255 }
    } else if k == 7 {
        RGBA { r: 136, g: 161, b: 86, a: 255 }
    } else if k == 8 {
        RGBA { r: 108, g: 161, b: 86, a: 255 }
    } else if k == 9 {
        RGBA { r: 86, g: 161, b: 141, a: 255 }
    } else if k == 10 {
        RGBA { r: 86, g: 147, b: 161, a: 255 }
    } else if k == 11 {
        RGBA { r: 86, g: 123, b: 161, a: 255 }
    } else if k == 12 {
        RGBA { r: 86, g: 98, b: 161, a: 255 }
    } else if k == 13 {
        RGBA { r: 102, g: 86, b: 161, a: 255 }
    } else if k == 14 {
        RGBA { r: 135, g: 86, b: 161, a: 255 }
    } else {
        RGBA { r: 161, g: 85, b: 151, a: 255 }
    }
}

} // verus!
