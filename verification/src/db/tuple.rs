use vstd::prelude::*;
use vstd::array::array_as_slice;
use vstd::slice::slice_subrange;
use vstd::std_specs::cmp::{PartialEqSpecImpl, PartialOrdSpecImpl};
use vstd::std_specs::ops::BitXorSpecImpl;
use std::cmp::Ordering;
use std::ops::BitXor;
use super::{PungTuple, CIPHER_SIZE, LABEL_SIZE, TUPLE_SIZE};
use crate::util::{label_cmp, label_eq, label_lt, lex_lt};

verus! {

/// Byte-wise exclusive or of two byte strings of one length.
pub open spec fn xor_bytes(a: Seq<u8>, b: Seq<u8>) -> Seq<u8>
    recommends
        a.len() == b.len(),
{
    Seq::new(a.len(), |i: int| a[i] ^ b[i])
}

impl View for PungTuple {
    type V = Seq<u8>;

    open spec fn view(&self) -> Seq<u8> {
        self.data@
    }
}

impl PungTuple {
    /// The label: the first `LABEL_SIZE` bytes.
    pub open spec fn spec_label(&self) -> Seq<u8> {
        self@.subrange(0, LABEL_SIZE as int)
    }

    /// The ciphertext: the `CIPHER_SIZE` bytes after the label.
    pub open spec fn spec_cipher(&self) -> Seq<u8> {
        self@.subrange(LABEL_SIZE as int, LABEL_SIZE + CIPHER_SIZE)
    }

    /// The tag: the last `MAC_SIZE` bytes.
    pub open spec fn spec_mac(&self) -> Seq<u8> {
        self@.subrange(LABEL_SIZE + CIPHER_SIZE, TUPLE_SIZE as int)
    }

    /// Reads a tuple from its `TUPLE_SIZE` bytes.
    pub fn new(data: &[u8]) -> (t: PungTuple)
        requires
            data@.len() == TUPLE_SIZE,
        ensures
            t@ == data@,
    {
        let mut x = [0u8; TUPLE_SIZE];
        let mut i: usize = 0;
        while i < TUPLE_SIZE
            invariant
                i <= TUPLE_SIZE,
                data@.len() == TUPLE_SIZE,
                x@.len() == TUPLE_SIZE,
                forall|j: int| 0 <= j < i ==> x@[j] == data@[j],
            decreases TUPLE_SIZE - i,
        {
            x[i] = data[i];
            i += 1;
        }
        assert(x@ =~= data@);
        PungTuple { data: x }
    }

    /// The tuple of all zeros.
    pub fn default() -> (t: PungTuple)
        ensures
            t@ == Seq::new(TUPLE_SIZE as nat, |i: int| 0u8),
    {
        let t = PungTuple { data: [0u8; TUPLE_SIZE] };
        assert(t@ =~= Seq::new(TUPLE_SIZE as nat, |i: int| 0u8));
        t
    }

    /// The tuple as a vector of its `TUPLE_SIZE` bytes.
    pub fn to_binary(&self) -> (res: Vec<u8>)
        ensures
            res@ == self@,
    {
        let mut res: Vec<u8> = Vec::with_capacity(TUPLE_SIZE);
        let mut i: usize = 0;
        while i < TUPLE_SIZE
            invariant
                i <= TUPLE_SIZE,
                self@.len() == TUPLE_SIZE,
                res@ == self@.take(i as int),
            decreases TUPLE_SIZE - i,
        {
            res.push(self.data[i]);
            assert(res@ =~= self@.take(i as int + 1));
            i += 1;
        }
        assert(self@.take(TUPLE_SIZE as int) =~= self@);
        res
    }

    /// Whether the tuple's label comes before `label`.
    pub fn lt(&self, label: &[u8]) -> (r: bool)
        ensures
            r == lex_lt(self.spec_label(), label@),
    {
        label_lt(self.label(), label)
    }

    /// Whether the tuple's label comes after `label`.
    pub fn gt(&self, label: &[u8]) -> (r: bool)
        ensures
            r == lex_lt(label@, self.spec_label()),
    {
        label_lt(label, self.label())
    }

    /// Replaces this tuple by its byte-wise exclusive or with another.
    pub fn xor_with(&mut self, other: &PungTuple)
        ensures
            final(self)@ == xor_bytes(old(self)@, other@),
    {
        let x = self.xor(other);
        self.data = x.data;
    }

    /// The byte-wise exclusive or of this tuple and another.
    pub fn xor(&self, other: &PungTuple) -> (r: PungTuple)
        ensures
            r@ == xor_bytes(self@, other@),
    {
        let mut x = self.data;
        let mut i: usize = 0;
        while i < TUPLE_SIZE
            invariant
                i <= TUPLE_SIZE,
                x@.len() == TUPLE_SIZE,
                self@.len() == TUPLE_SIZE,
                other@.len() == TUPLE_SIZE,
                forall|j: int| 0 <= j < i ==> x@[j] == self@[j] ^ other@[j],
                forall|j: int| i <= j < TUPLE_SIZE ==> x@[j] == self@[j],
            decreases TUPLE_SIZE - i,
        {
            x[i] = x[i] ^ other.data[i];
            i += 1;
        }
        assert(x@ =~= xor_bytes(self@, other@));
        PungTuple { data: x }
    }

    /// The label of the tuple.
    pub fn label(&self) -> (l: &[u8])
        ensures
            l@ == self.spec_label(),
            l@.len() == LABEL_SIZE,
    {
        slice_subrange(array_as_slice(&self.data), 0, LABEL_SIZE)
    }

    /// The ciphertext of the tuple.
    pub fn cipher(&self) -> (c: &[u8])
        ensures
            c@ == self.spec_cipher(),
            c@.len() == CIPHER_SIZE,
    {
        slice_subrange(array_as_slice(&self.data), LABEL_SIZE, LABEL_SIZE + CIPHER_SIZE)
    }

    /// The tag of the tuple.
    pub fn mac(&self) -> (m: &[u8])
        ensures
            m@ == self.spec_mac(),
            m@.len() == super::MAC_SIZE,
    {
        slice_subrange(array_as_slice(&self.data), LABEL_SIZE + CIPHER_SIZE, TUPLE_SIZE)
    }
}

impl std::ops::BitXorAssign for PungTuple {
    /// Replaces this tuple by its byte-wise exclusive or with another.
    fn bitxor_assign(&mut self, other: PungTuple)
        ensures
            final(self)@ == xor_bytes(old(self)@, other@),
    {
        self.xor_with(&other);
    }
}

impl<'a> BitXorSpecImpl<&'a PungTuple> for &'a PungTuple {
    open spec fn obeys_bitxor_spec() -> bool {
        true
    }

    open spec fn bitxor_req(self, rhs: &'a PungTuple) -> bool {
        true
    }

    open spec fn bitxor_spec(self, rhs: &'a PungTuple) -> PungTuple {
        choose|t: PungTuple| t@ == xor_bytes(self@, rhs@)
    }
}

impl<'a> BitXor<&'a PungTuple> for &'a PungTuple {
    type Output = PungTuple;

    /// The byte-wise exclusive or of two tuples.
    fn bitxor(self, other: &'a PungTuple) -> (r: PungTuple)
        ensures
            r@ == xor_bytes(self@, other@),
    {
        let r = self.xor(other);
        proof {
            let c = choose|t: PungTuple| t@ == xor_bytes(self@, other@);
            assert(c@ == r@);
            assert(c.data@ =~= r.data@);
            assert(c.data =~= r.data);
        }
        r
    }
}

impl PartialEqSpecImpl for PungTuple {
    open spec fn obeys_eq_spec() -> bool {
        true
    }

    open spec fn eq_spec(&self, other: &PungTuple) -> bool {
        self.spec_label() == other.spec_label()
    }
}

impl PartialEq for PungTuple {
    /// Two tuples are equal where their labels are: the order of tuples
    /// looks at the label alone.
    fn eq(&self, other: &PungTuple) -> (r: bool) {
        label_eq(self.label(), other.label())
    }
}

impl Eq for PungTuple {}

impl PartialOrdSpecImpl for PungTuple {
    open spec fn obeys_partial_cmp_spec() -> bool {
        true
    }

    open spec fn partial_cmp_spec(&self, other: &PungTuple) -> Option<Ordering> {
        if lex_lt(self.spec_label(), other.spec_label()) {
            Some(Ordering::Less)
        } else if lex_lt(other.spec_label(), self.spec_label()) {
            Some(Ordering::Greater)
        } else {
            Some(Ordering::Equal)
        }
    }
}

impl PartialOrd for PungTuple {
    /// Tuples are ordered as their labels are.
    fn partial_cmp(&self, other: &PungTuple) -> (r: Option<Ordering>) {
        Some(label_cmp(self.label(), other.label()))
    }
}

} // verus!
