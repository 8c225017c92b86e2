//! Conversions of fixed-width values to proquints.  A value wider than 16
//! bits is cut into 16-bit words, most significant first.
use vstd::prelude::*;

use crate::identifier::{text_chars, Proquint};

verus! {

/// The two words of `v`, high word first.
pub open spec fn words_of_u32(v: u32) -> Seq<u16> {
    seq![(v >> 16u32) as u16, (v & 0xffffu32) as u16]
}

/// The four words of `v`, high word first.
pub open spec fn words_of_u64(v: u64) -> Seq<u16> {
    seq![
        (v >> 48u64) as u16,
        ((v >> 32u64) & 0xffffu64) as u16,
        ((v >> 16u64) & 0xffffu64) as u16,
        (v & 0xffffu64) as u16,
    ]
}

/// The two words of an IPv4 address given by its four octets: the first two
/// octets make the high word, the last two the low word.
pub open spec fn words_of_ipv4(o: [u8; 4]) -> Seq<u16> {
    seq![(o[0] as int * 256 + o[1] as int) as u16, (o[2] as int * 256 + o[3] as int) as u16]
}

/// Values that can be written as a proquint.
pub trait AsProquint {
    /// The words that stand for the value, in order.
    spec fn proquint_words(&self) -> Seq<u16>;

    /// Appends the labels of this value to `to`.
    fn into_proquint(&self, to: &mut Proquint)
        requires
            old(to).wf(),
        ensures
            final(to).wf(),
            final(to)@ == old(to)@ + self.proquint_words(),
    ;

    /// The proquint of this value.
    fn as_proquint(&self) -> (r: Proquint)
        ensures
            r.wf(),
            r@ == self.proquint_words(),
    {
        let mut p = Proquint::from_vec(Vec::new());
        self.into_proquint(&mut p);
        assert(p@ =~= self.proquint_words());
        p
    }

    /// The canonical text of this value's proquint.
    fn as_proquint_str(&self) -> (r: String)
        ensures
            r@ == text_chars(self.proquint_words()),
    {
        self.as_proquint().to_string()
    }
}

impl AsProquint for u16 {
    open spec fn proquint_words(&self) -> Seq<u16> {
        seq![*self]
    }

    fn into_proquint(&self, to: &mut Proquint) {
        to.append(*self);
        assert(to@ =~= old(to)@ + seq![*self]);
    }
}

impl AsProquint for u32 {
    open spec fn proquint_words(&self) -> Seq<u16> {
        words_of_u32(*self)
    }

    fn into_proquint(&self, to: &mut Proquint) {
        to.append((*self >> 16u32) as u16);
        to.append((*self & 0xffffu32) as u16);
        assert(to@ =~= old(to)@ + words_of_u32(*self));
    }
}

impl AsProquint for u64 {
    open spec fn proquint_words(&self) -> Seq<u16> {
        words_of_u64(*self)
    }

    fn into_proquint(&self, to: &mut Proquint) {
        to.append((*self >> 48u64) as u16);
        to.append(((*self >> 32u64) & 0xffffu64) as u16);
        to.append(((*self >> 16u64) & 0xffffu64) as u16);
        to.append((*self & 0xffffu64) as u16);
        assert(to@ =~= old(to)@ + words_of_u64(*self));
    }
}

impl AsProquint for Vec<u16> {
    open spec fn proquint_words(&self) -> Seq<u16> {
        self@
    }

    fn into_proquint(&self, to: &mut Proquint) {
        let mut i: usize = 0;
        while i < self.len()
            invariant
                i <= self@.len(),
                to.wf(),
                to@ == old(to)@ + self@.take(i as int),
            decreases self@.len() - i,
        {
            to.append(self[i]);
            i = i + 1;
            assert(to@ =~= old(to)@ + self@.take(i as int));
        }
        assert(self@.take(i as int) =~= self@);
    }
}

/// The proquint of the IPv4 address with octets `octets`, in network order.
pub fn encode_ipv4(octets: [u8; 4]) -> (r: Proquint)
    ensures
        r.wf(),
        r@ == words_of_ipv4(octets),
{
    let high: u16 = octets[0] as u16 * 256 + octets[1] as u16;
    let low: u16 = octets[2] as u16 * 256 + octets[3] as u16;
    let mut p = Proquint::from_vec(Vec::new());
    p.append(high);
    p.append(low);
    assert(p@ =~= words_of_ipv4(octets));
    p
}

} // verus!
