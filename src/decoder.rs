//! Splitting a 32-bit address into tag, set index and block offset.
use crate::is_power_of_two;
use crate::regular::log_2;
use vstd::arithmetic::power2::{
    lemma_pow2_adds, lemma_pow2_pos, lemma_pow2_strictly_increases, pow2,
};
use vstd::bits::{lemma_u32_pow2_no_overflow, lemma_u32_shl_is_mul};
use vstd::prelude::*;

verus! {

/// Width of an address in bits.
pub const ADDRESS_BITS: usize = 32;

/// `width` one-bits starting at bit `shift` of a 32-bit word: none when the
/// width is 0 or the shift is 32 or more, all the bits from `shift` up when the
/// width is 32 or more.
pub open spec fn mask_of(width: u32, shift: u32) -> u32 {
    if shift >= 32 {
        0u32
    } else if width >= 32 {
        0xffff_ffffu32 << shift
    } else {
        (((1u32 << width) - 1) as u32) << shift
    }
}

/// The `width`-bit field of `address` that starts at bit `shift`, moved down
/// to bit 0.
pub open spec fn field_of(address: u32, width: u32, shift: u32) -> u32 {
    if shift >= 32 {
        0u32
    } else {
        (address & mask_of(width, shift)) >> shift
    }
}

/// `x` fits in `width` bits.
pub open spec fn fits(x: u32, width: u32) -> bool {
    width >= 32 || x < (1u32 << width)
}

/// `x` placed at bit `shift` of a 32-bit word; nothing when the shift is 32
/// or more.
pub open spec fn placed(x: u32, shift: u32) -> u32 {
    if shift >= 32 {
        0u32
    } else {
        x << shift
    }
}

/// The address whose fields are `tag`, `index` and `offset`, for an offset of
/// `offset_bits` bits below an index of `index_bits` bits.
pub open spec fn compose(tag: u32, index: u32, offset: u32, offset_bits: u32, index_bits: u32) -> u32 {
    placed(tag, (offset_bits + index_bits) as u32) | placed(index, offset_bits) | offset
}

/// The three fields of a decoded address.
#[derive(Debug, PartialEq, Eq, Structural, Clone, Copy)]
pub struct DecodedAddress {
    pub tag: usize,
    pub index: usize,
    pub offset: usize,
}

/// How addresses split for a given geometry: the width of each field and the
/// mask that selects it in place.
#[derive(Debug, PartialEq, Eq, Structural, Clone, Copy)]
pub struct AddressLayout {
    pub nbits_offset: usize,
    pub nbits_index: usize,
    pub nbits_tag: usize,
    pub offset_mask: u32,
    pub index_mask: u32,
    pub tag_mask: u32,
}

impl AddressLayout {
    /// The widths partition the 32 address bits and each mask selects its
    /// field.
    pub open spec fn wf(self) -> bool {
        &&& self.nbits_offset + self.nbits_index + self.nbits_tag == 32
        &&& self.offset_mask == mask_of(self.nbits_offset as u32, 0)
        &&& self.index_mask == mask_of(self.nbits_index as u32, self.nbits_offset as u32)
        &&& self.tag_mask == mask_of(
            self.nbits_tag as u32,
            (self.nbits_offset + self.nbits_index) as u32,
        )
    }

    /// The fields of `address` under this layout.
    pub open spec fn decoded(self, address: u32) -> DecodedAddress {
        DecodedAddress {
            offset: field_of(address, self.nbits_offset as u32, 0) as usize,
            index: field_of(address, self.nbits_index as u32, self.nbits_offset as u32) as usize,
            tag: field_of(
                address,
                self.nbits_tag as u32,
                (self.nbits_offset + self.nbits_index) as u32,
            ) as usize,
        }
    }
}

/// The mask of `width` one-bits at bit `shift`.
pub fn make_mask(width: usize, shift: usize) -> (r: u32)
    requires
        shift <= ADDRESS_BITS,
    ensures
        r == mask_of(if width >= 32 { 32u32 } else { width as u32 }, shift as u32),
{
    if shift == ADDRESS_BITS {
        0
    } else if width >= ADDRESS_BITS {
        u32::MAX << (shift as u32)
    } else {
        let w = width as u32;
        let s = shift as u32;
        assert((1u32 << w) >= 1) by (bit_vector)
            requires
                w < 32,
        ;
        ((1u32 << w) - 1) << s
    }
}

/// Decoding inverts composing: for a layout with `offset_bits` offset bits
/// and `index_bits` index bits, the address built from a tag, an index and an
/// offset that fit their widths decodes to the same three fields.
pub proof fn lemma_decode_compose(
    tag: u32,
    index: u32,
    offset: u32,
    offset_bits: u32,
    index_bits: u32,
)
    by (bit_vector)
    requires
        offset_bits + index_bits <= 32,
        fits(offset, offset_bits),
        fits(index, index_bits),
        fits(tag, (32 - offset_bits - index_bits) as u32),
    ensures
        field_of(compose(tag, index, offset, offset_bits, index_bits), offset_bits, 0) == offset,
        field_of(compose(tag, index, offset, offset_bits, index_bits), index_bits, offset_bits)
            == index,
        field_of(
            compose(tag, index, offset, offset_bits, index_bits),
            (32 - offset_bits - index_bits) as u32,
            (offset_bits + index_bits) as u32,
        ) == tag,
{
}

/// A field of `width` bits, `width` at most 32, is below `2^width`.
pub proof fn lemma_field_below(address: u32, width: u32, shift: u32)
    requires
        width <= 32,
    ensures
        field_of(address, width, shift) < pow2(width as nat),
{
    let f = field_of(address, width, shift);
    assert(fits(field_of(address, width, shift), width)) by (bit_vector);
    vstd::arithmetic::power2::lemma2_to64();
    if width < 32 {
        lemma_u32_pow2_no_overflow(width as nat);
        lemma_u32_shl_is_mul(1, width);
    }
}

/// The layout for `nsets` sets of `bsize`-byte blocks.
pub open spec fn layout_for(nsets: usize, bsize: usize) -> AddressLayout {
    choose|l: AddressLayout|
        l.wf() && pow2(l.nbits_offset as nat) == bsize && pow2(l.nbits_index as nat) == nsets
}

/// `pow2` is one to one.
proof fn lemma_pow2_injective(a: nat, b: nat)
    requires
        pow2(a) == pow2(b),
    ensures
        a == b,
{
    if a < b {
        lemma_pow2_strictly_increases(a, b);
    }
    if b < a {
        lemma_pow2_strictly_increases(b, a);
    }
}

impl AddressLayout {
    /// The layout for `nsets` sets of `bsize`-byte blocks: the offset takes the
    /// low `log2(bsize)` bits, the index the next `log2(nsets)`, the tag the
    /// rest.
    pub fn new(nsets: usize, bsize: usize) -> (r: AddressLayout)
        requires
            is_power_of_two(nsets as nat),
            is_power_of_two(bsize as nat),
            nsets * bsize <= pow2(32),
        ensures
            r.wf(),
            pow2(r.nbits_offset as nat) == bsize,
            pow2(r.nbits_index as nat) == nsets,
            r == layout_for(nsets, bsize),
    {
        proof {
            lemma_pow2_pos(0);
            let k = choose|k: nat| pow2(k) == nsets;
            lemma_pow2_pos(k);
            let j = choose|j: nat| pow2(j) == bsize;
            lemma_pow2_pos(j);
        }
        let nbits_offset = log_2(bsize);
        let nbits_index = log_2(nsets);
        proof {
            lemma_pow2_adds(nbits_index as nat, nbits_offset as nat);
            if nbits_index + nbits_offset > 32 {
                lemma_pow2_strictly_increases(32, (nbits_index + nbits_offset) as nat);
            }
        }
        let nbits_tag = ADDRESS_BITS - nbits_index - nbits_offset;
        let offset_mask = make_mask(nbits_offset, 0);
        let index_mask = make_mask(nbits_index, nbits_offset);
        let tag_mask = make_mask(nbits_tag, nbits_index + nbits_offset);
        let r = AddressLayout {
            nbits_offset,
            nbits_index,
            nbits_tag,
            offset_mask,
            index_mask,
            tag_mask,
        };
        proof {
            assert(r.wf() && pow2(r.nbits_offset as nat) == bsize && pow2(r.nbits_index as nat)
                == nsets);
            let l = layout_for(nsets, bsize);
            lemma_pow2_injective(l.nbits_offset as nat, r.nbits_offset as nat);
            lemma_pow2_injective(l.nbits_index as nat, r.nbits_index as nat);
        }
        r
    }

    /// Splits `address` into its tag, set index and block offset.
    pub fn decode(&self, address: u32) -> (r: DecodedAddress)
        requires
            self.wf(),
        ensures
            r == self.decoded(address),
            r.offset < pow2(self.nbits_offset as nat),
            r.index < pow2(self.nbits_index as nat),
            r.tag < pow2(self.nbits_tag as nat),
    {
        let offset_mask = self.offset_mask;
        assert((address & offset_mask) >> 0u32 == address & offset_mask) by (bit_vector);
        let offset = (address & self.offset_mask) as usize;
        let index = if self.nbits_offset >= ADDRESS_BITS {
            0
        } else {
            ((address & self.index_mask) >> (self.nbits_offset as u32)) as usize
        };
        let shift = self.nbits_offset + self.nbits_index;
        let tag = if shift >= ADDRESS_BITS {
            0
        } else {
            ((address & self.tag_mask) >> (shift as u32)) as usize
        };
        proof {
            lemma_field_below(address, self.nbits_offset as u32, 0);
            lemma_field_below(address, self.nbits_index as u32, self.nbits_offset as u32);
            lemma_field_below(address, self.nbits_tag as u32, shift as u32);
        }
        DecodedAddress { tag, index, offset }
    }
}

/// Decoding under a well-formed layout inverts composing: an address built
/// from a tag, an index and an offset that fit the layout's widths decodes to
/// those three fields.
pub proof fn lemma_layout_round_trip(layout: AddressLayout, tag: u32, index: u32, offset: u32)
    requires
        layout.wf(),
        fits(offset, layout.nbits_offset as u32),
        fits(index, layout.nbits_index as u32),
        fits(tag, layout.nbits_tag as u32),
    ensures
        layout.decoded(
            compose(tag, index, offset, layout.nbits_offset as u32, layout.nbits_index as u32),
        ) == (DecodedAddress { tag: tag as usize, index: index as usize, offset: offset as usize }),
{
    lemma_decode_compose(tag, index, offset, layout.nbits_offset as u32, layout.nbits_index as u32);
}

} // verus!
