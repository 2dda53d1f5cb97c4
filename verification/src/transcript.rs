//! Fiat-Shamir transcripts: challenges derived by hashing the system
//! parameters, a protocol label and the messages of a proof.
//!
//! The hashed input is the length-prefixed label, the encodings of the
//! three generators, then the 32-byte encodings of the items in order.
//! The challenge is the 64-byte BLAKE3 output reduced modulo ℓ.
use vstd::prelude::*;
use crate::encoding::{length_prefixed, push_bytes, push_length_prefixed};
use crate::hash::{blake3_xof, blake3_xof64};
use crate::params::Params;
use crate::point::Point;
use crate::scalar::{group_order, le_nat, scalar_encoding, Scalar};

verus! {

/// The protocol step that a challenge belongs to.
#[derive(Clone, Copy, Debug)]
pub enum Label {
    Request,
    Respond,
    Spend,
    Refund,
}

/// The bytes of the label: `"request"`, `"respond"`, `"spend"` or `"refund"`.
pub open spec fn label_bytes(label: Label) -> Seq<u8> {
    match label {
        Label::Request => seq![114u8, 101, 113, 117, 101, 115, 116],
        Label::Respond => seq![114u8, 101, 115, 112, 111, 110, 100],
        Label::Spend => seq![115u8, 112, 101, 110, 100],
        Label::Refund => seq![114u8, 101, 102, 117, 110, 100],
    }
}

/// What every transcript of the given parameters and label starts with.
pub open spec fn transcript_header(params: (Seq<u8>, Seq<u8>, Seq<u8>), label: Label) -> Seq<
    u8,
> {
    length_prefixed(label_bytes(label)) + params.0 + params.1 + params.2
}

/// The concatenation of the items, in order.
pub open spec fn flatten(items: Seq<Seq<u8>>) -> Seq<u8>
    decreases items.len(),
{
    if items.len() == 0 {
        Seq::empty()
    } else {
        flatten(items.drop_last()) + items.last()
    }
}

/// The challenge of a transcript: its hash, reduced modulo ℓ.
pub open spec fn challenge_of(
    params: (Seq<u8>, Seq<u8>, Seq<u8>),
    label: Label,
    items: Seq<Seq<u8>>,
) -> nat {
    le_nat(blake3_xof64(transcript_header(params, label) + flatten(items))) % group_order()
}

/// A transcript being built: the bytes hashed so far.
pub struct Transcript {
    buf: Vec<u8>,
    header: Ghost<Seq<u8>>,
    items: Ghost<Seq<Seq<u8>>>,
}

impl Transcript {
    /// The header that the transcript started with.
    pub closed spec fn header(&self) -> Seq<u8> {
        self.header@
    }

    /// The items added so far.
    pub closed spec fn items(&self) -> Seq<Seq<u8>> {
        self.items@
    }

    /// The buffer holds the header followed by the items.
    pub closed spec fn wf(&self) -> bool {
        self.buf@ == self.header@ + flatten(self.items@)
    }

    /// An empty transcript for the given parameters and label.
    pub fn new(params: &Params, label: Label) -> (t: Transcript)
        ensures
            t.wf(),
            t.header() == transcript_header(params@, label),
            t.items() == Seq::<Seq<u8>>::empty(),
    {
        let mut buf: Vec<u8> = Vec::new();
        match label {
            Label::Request => {
                let l: [u8; 7] = [114u8, 101, 113, 117, 101, 115, 116];
                push_length_prefixed(&mut buf, &l);
            },
            Label::Respond => {
                let l: [u8; 7] = [114u8, 101, 115, 112, 111, 110, 100];
                push_length_prefixed(&mut buf, &l);
            },
            Label::Spend => {
                let l: [u8; 5] = [115u8, 112, 101, 110, 100];
                push_length_prefixed(&mut buf, &l);
            },
            Label::Refund => {
                let l: [u8; 6] = [114u8, 101, 102, 117, 110, 100];
                push_length_prefixed(&mut buf, &l);
            },
        }
        assert(buf@ =~= length_prefixed(label_bytes(label)));
        let h1 = params.h1().to_bytes();
        let h2 = params.h2().to_bytes();
        let h3 = params.h3().to_bytes();
        push_bytes(&mut buf, &h1);
        push_bytes(&mut buf, &h2);
        push_bytes(&mut buf, &h3);
        let t = Transcript {
            buf,
            header: Ghost(transcript_header(params@, label)),
            items: Ghost(Seq::empty()),
        };
        assert(t.buf@ =~= t.header@ + flatten(t.items@));
        t
    }

    fn push_item(&mut self, item: &[u8; 32])
        requires
            old(self).wf(),
        ensures
            final(self).wf(),
            final(self).header() == old(self).header(),
            final(self).items() == old(self).items().push(item@),
    {
        push_bytes(&mut self.buf, item);
        let ghost old_items = self.items@;
        self.items = Ghost(self.items@.push(item@));
        assert(self.items@.drop_last() =~= old_items);
        assert(flatten(self.items@) == flatten(old_items) + item@);
        assert(self.buf@ =~= self.header@ + flatten(self.items@));
    }

    /// Appends the encoding of a point.
    pub fn add_element(&mut self, p: &Point)
        requires
            old(self).wf(),
        ensures
            final(self).wf(),
            final(self).header() == old(self).header(),
            final(self).items() == old(self).items().push(p@),
    {
        let bytes = p.to_bytes();
        self.push_item(&bytes);
    }

    /// Appends the encoding of a scalar.
    pub fn add_scalar(&mut self, s: &Scalar)
        requires
            old(self).wf(),
        ensures
            final(self).wf(),
            final(self).header() == old(self).header(),
            final(self).items() == old(self).items().push(scalar_encoding(s@)),
    {
        proof {
            use_type_invariant(s);
            Scalar::lemma_bytes_are_encoding(*s);
        }
        let bytes = s.to_bytes();
        self.push_item(&bytes);
    }

    /// The challenge: the 64-byte hash of the transcript, reduced modulo ℓ.
    pub fn challenge(&self) -> (r: Scalar)
        requires
            self.wf(),
        ensures
            r@ == le_nat(blake3_xof64(self.header() + flatten(self.items()))) % group_order(),
    {
        let out = blake3_xof(self.buf.as_slice());
        Scalar::from_bytes_mod_order_wide(&out)
    }
}

} // verus!
