//! The master page: one allocated-page counter per header page, stored on
//! disk as consecutive little-endian 16-bit integers.
use crate::layout::{MAX_HEADER_PAGES, PAGE_SIZE};
use vstd::prelude::*;

verus! {

/// The bytes of the master page that holds `counters`, little-endian.
pub open spec fn encode_counters(counters: Seq<u16>) -> Seq<u8> {
    Seq::new(
        2 * counters.len(),
        |i: int|
            if i % 2 == 0 {
                (counters[i / 2] % 256) as u8
            } else {
                (counters[i / 2] / 256) as u8
            },
    )
}

/// The counters that a master page of bytes `bytes` holds.
pub open spec fn decode_counters(bytes: Seq<u8>) -> Seq<u16> {
    Seq::new(
        MAX_HEADER_PAGES as nat,
        |i: int| (bytes[2 * i] + 256 * bytes[2 * i + 1]) as u16,
    )
}

pub struct MasterPage {
    pub metadata: Vec<u16>,
}

impl View for MasterPage {
    type V = Seq<u16>;

    open spec fn view(&self) -> Seq<u16> {
        self.metadata@
    }
}

impl MasterPage {
    /// A master page with one counter per header page, each zero.
    pub fn new() -> (r: MasterPage)
        ensures
            r@ == Seq::new(MAX_HEADER_PAGES as nat, |i: int| 0u16),
    {
        let mut metadata: Vec<u16> = Vec::new();
        let mut i: usize = 0;
        while i < MAX_HEADER_PAGES
            invariant
                i <= MAX_HEADER_PAGES,
                metadata@ == Seq::new(i as nat, |k: int| 0u16),
            decreases MAX_HEADER_PAGES - i,
        {
            metadata.push(0);
            i = i + 1;
        }
        MasterPage { metadata }
    }

    /// Adds one to the counter of header page `header_index`.
    pub fn up(&mut self, header_index: usize)
        requires
            header_index < old(self)@.len(),
            old(self)@[header_index as int] < u16::MAX,
        ensures
            final(self)@ == old(self)@.update(
                header_index as int,
                (old(self)@[header_index as int] + 1) as u16,
            ),
    {
        let v = self.metadata[header_index];
        self.metadata.set(header_index, v + 1);
    }

    /// Takes one from the counter of header page `header_index`.
    pub fn down(&mut self, header_index: usize)
        requires
            header_index < old(self)@.len(),
            old(self)@[header_index as int] > 0,
        ensures
            final(self)@ == old(self)@.update(
                header_index as int,
                (old(self)@[header_index as int] - 1) as u16,
            ),
    {
        let v = self.metadata[header_index];
        self.metadata.set(header_index, v - 1);
    }

    /// The on-disk image of the master page.
    pub fn to_bytes(&self) -> (r: Vec<u8>)
        requires
            self@.len() == MAX_HEADER_PAGES,
        ensures
            r@ == encode_counters(self@),
            r@.len() == PAGE_SIZE,
    {
        let mut bytes: Vec<u8> = Vec::new();
        let mut i: usize = 0;
        while i < self.metadata.len()
            invariant
                i <= self@.len() == MAX_HEADER_PAGES,
                bytes@ == encode_counters(self@).subrange(0, 2 * i),
            decreases self@.len() - i,
        {
            let v = self.metadata[i];
            bytes.push((v % 256) as u8);
            bytes.push((v / 256) as u8);
            proof {
                assert(bytes@ =~= encode_counters(self@).subrange(0, 2 * (i + 1)));
            }
            i = i + 1;
        }
        proof {
            assert(bytes@ =~= encode_counters(self@));
        }
        bytes
    }

    /// Reads a master page from its on-disk image.
    pub fn from_bytes(bytes: &[u8]) -> (r: MasterPage)
        requires
            bytes@.len() == PAGE_SIZE,
        ensures
            r@ == decode_counters(bytes@),
    {
        let mut metadata: Vec<u16> = Vec::new();
        let mut i: usize = 0;
        while i < MAX_HEADER_PAGES
            invariant
                i <= MAX_HEADER_PAGES,
                bytes@.len() == PAGE_SIZE,
                metadata@ == decode_counters(bytes@).subrange(0, i as int),
            decreases MAX_HEADER_PAGES - i,
        {
            let lo = bytes[2 * i] as u16;
            let hi = bytes[2 * i + 1] as u16;
            metadata.push(lo + 256 * hi);
            proof {
                assert(metadata@ =~= decode_counters(bytes@).subrange(0, i + 1));
            }
            i = i + 1;
        }
        proof {
            assert(metadata@ =~= decode_counters(bytes@));
        }
        MasterPage { metadata }
    }
}

/// Decoding the image of a master page gives back its counters.
pub proof fn lemma_decode_encode(counters: Seq<u16>)
    requires
        counters.len() == MAX_HEADER_PAGES,
    ensures
        decode_counters(encode_counters(counters)) == counters,
{
    let e = encode_counters(counters);
    assert forall|i: int| 0 <= i < counters.len() implies decode_counters(e)[i] == counters[i] by {
        let v = counters[i];
        assert((2 * i) / 2 == i && (2 * i) % 2 == 0);
        assert((2 * i + 1) / 2 == i && (2 * i + 1) % 2 == 1);
        assert(v % 256 + 256 * (v / 256) == v);
    }
    assert(decode_counters(e) =~= counters);
}

} // verus!
