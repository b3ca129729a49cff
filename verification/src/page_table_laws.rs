//! Laws of the simulated SV39 page table, stated over the translation that
//! `Sv39PageTable::translate` returns and the relations that the mapping
//! functions establish.

use crate::page_table::{
    leaf_address, leaf_entry, leaf_result, page_mapped, same_page, same_superpage,
    superpage_mapped, vpn_of, Sv39PageTable, TranslateResult, LEAF_FLAGS,
};
use vstd::prelude::*;

verus! {

/// A 39-bit virtual address is exactly its three 9-bit page numbers and its
/// 12-bit offset put side by side.
pub proof fn law_vpn_split(va: u64)
    requires
        va < 0x80_0000_0000,
    ensures
        va == (vpn_of(va, 2) << 30) | (vpn_of(va, 1) << 21) | (vpn_of(va, 0) << 12) | (va & 0xFFF),
{
    assert(vpn_of(va, 2) == (va >> 30u64) & 0x1FF);
    assert(vpn_of(va, 1) == (va >> 21u64) & 0x1FF);
    assert(vpn_of(va, 0) == (va >> 12u64) & 0x1FF);
    assert(va == (((va >> 30u64) & 0x1FF) << 30u64) | (((va >> 21u64) & 0x1FF) << 21u64) | (((va
        >> 12u64) & 0x1FF) << 12u64) | (va & 0xFFF)) by (bit_vector)
        requires
            va < 0x80_0000_0000u64,
    ;
}

/// A 4 KiB mapping translates an address to the page of the physical
/// address plus the offset of the virtual address within its page (flag
/// bits above bit 9 land in the physical page number); without R, W or X
/// the address faults.
pub proof fn law_page_translation(pa: u64, flags: u64, va: u64)
    ensures
        leaf_result(leaf_entry(pa, flags), 0, va) == if flags & LEAF_FLAGS != 0 {
            TranslateResult::Mapped((pa & !0xFFFu64) | ((flags >> 10) << 12) | (va & 0xFFF))
        } else {
            TranslateResult::PageFault
        },
{
    crate::page_table::lemma_leaf_entry(pa, flags);
    assert(((((pa >> 12u64) << 10u64) | flags | 1u64) >> 10u64) << 12u64 == (pa & !0xFFFu64) | ((
    flags >> 10u64) << 12u64)) by (bit_vector);
}

/// With flags confined to the flag bits, a 4 KiB mapping translates to the
/// physical page plus the page offset.
pub proof fn law_page_translation_plain(pa: u64, flags: u64, va: u64)
    requires
        flags & LEAF_FLAGS != 0,
        flags < 0x400,
    ensures
        leaf_result(leaf_entry(pa, flags), 0, va) == TranslateResult::Mapped(
            (pa & !0xFFFu64) | (va & 0xFFF),
        ),
{
    law_page_translation(pa, flags, va);
    assert((pa & !0xFFFu64) | ((flags >> 10u64) << 12u64) | (va & 0xFFFu64) == (pa & !0xFFFu64) | (va
        & 0xFFFu64)) by (bit_vector)
        requires
            flags < 0x400u64,
    ;
}

/// A 2 MiB mapping translates an address to the physical region plus the
/// offset of the virtual address within its 2 MiB region.
pub proof fn law_superpage_translation(pa: u64, flags: u64, va: u64)
    requires
        pa % 0x20_0000 == 0,
        flags < 0x400,
    ensures
        leaf_address(leaf_entry(pa, flags), 1, va) == pa | (va & 0x1F_FFFF),
{
    assert(((((pa >> 12u64) << 10u64) | flags | 1u64) >> 10u64) << 12u64 | (va & 0x1F_FFFFu64) == pa
        | (va & 0x1F_FFFFu64)) by (bit_vector)
        requires
            pa % 0x20_0000u64 == 0,
            flags < 0x400u64,
    ;
}

/// After `map_page`, every address of the mapped page reads back the
/// physical page that was written, at the address's own offset.
pub proof fn law_map_page_read_back(before: Sv39PageTable, after: Sv39PageTable, va: u64, pa: u64, flags: u64, va2: u64)
    requires
        page_mapped(before, after, va, pa, flags),
        same_page(va, va2),
    ensures
        after.translation(va2) == if flags & LEAF_FLAGS != 0 {
            TranslateResult::Mapped((pa & !0xFFFu64) | ((flags >> 10) << 12) | (va2 & 0xFFF))
        } else {
            TranslateResult::PageFault
        },
{
    law_page_translation(pa, flags, va2);
    assert(after.translation(va2) == leaf_result(leaf_entry(pa, flags), 0, va2));
}

/// After `map_superpage`, every address of the 2 MiB region reads back the
/// physical region that was written, at the address's own offset.
pub proof fn law_map_superpage_read_back(before: Sv39PageTable, after: Sv39PageTable, va: u64, pa: u64, flags: u64, va2: u64)
    requires
        superpage_mapped(before, after, va, pa, flags),
        same_superpage(va, va2),
        pa % 0x20_0000 == 0,
        flags < 0x400,
    ensures
        after.translation(va2) == TranslateResult::Mapped(pa | (va2 & 0x1F_FFFF)),
{
    law_superpage_translation(pa, flags, va2);
    assert(after.translation(va2) == TranslateResult::Mapped(leaf_address(leaf_entry(pa, flags), 1, va2)));
}

/// Two addresses are in the same 4 KiB page (as the walk sees it) exactly
/// when their bits 12 to 38 agree.
pub proof fn law_same_page_bits(a: u64, b: u64)
    ensures
        same_page(a, b) <==> (a >> 12) % 0x800_0000 == (b >> 12) % 0x800_0000,
{
    assert(vpn_of(a, 2) == (a >> 30u64) & 0x1FF && vpn_of(b, 2) == (b >> 30u64) & 0x1FF);
    assert(vpn_of(a, 1) == (a >> 21u64) & 0x1FF && vpn_of(b, 1) == (b >> 21u64) & 0x1FF);
    assert(vpn_of(a, 0) == (a >> 12u64) & 0x1FF && vpn_of(b, 0) == (b >> 12u64) & 0x1FF);
    assert((((a >> 30u64) & 0x1FF) == ((b >> 30u64) & 0x1FF) && ((a >> 21u64) & 0x1FF) == ((b
        >> 21u64) & 0x1FF) && ((a >> 12u64) & 0x1FF) == ((b >> 12u64) & 0x1FF)) <==> (a >> 12u64)
        % 0x800_0000u64 == (b >> 12u64) % 0x800_0000u64) by (bit_vector);
}

/// Two addresses are in the same 2 MiB region (as the walk sees it) exactly
/// when their bits 21 to 38 agree.
pub proof fn law_same_superpage_bits(a: u64, b: u64)
    ensures
        same_superpage(a, b) <==> (a >> 21) % 0x4_0000 == (b >> 21) % 0x4_0000,
{
    assert(vpn_of(a, 2) == (a >> 30u64) & 0x1FF && vpn_of(b, 2) == (b >> 30u64) & 0x1FF);
    assert(vpn_of(a, 1) == (a >> 21u64) & 0x1FF && vpn_of(b, 1) == (b >> 21u64) & 0x1FF);
    assert((((a >> 30u64) & 0x1FF) == ((b >> 30u64) & 0x1FF) && ((a >> 21u64) & 0x1FF) == ((b
        >> 21u64) & 0x1FF)) <==> (a >> 21u64) % 0x4_0000u64 == (b >> 21u64) % 0x4_0000u64) by (bit_vector);
}

/// After `map_page(va, pa, flags)` with flags confined to the flag bits and
/// holding R, W or X, every address `v` whose bits 12 to 38 match `va`
/// translates to the page of `pa` plus the offset of `v`; every other
/// address keeps its translation.
pub proof fn law_map_page_translations(before: Sv39PageTable, after: Sv39PageTable, va: u64, pa: u64, flags: u64)
    requires
        page_mapped(before, after, va, pa, flags),
        flags < 0x400,
        flags & LEAF_FLAGS != 0,
    ensures
        forall|v: u64|
            (v >> 12) % 0x800_0000 == (va >> 12) % 0x800_0000 ==> #[trigger] after.translation(v)
                == TranslateResult::Mapped(((pa >> 12) << 12) | (v & 0xFFF)),
        forall|v: u64|
            (v >> 12) % 0x800_0000 != (va >> 12) % 0x800_0000 ==> #[trigger] after.translation(v)
                == before.translation(v),
{
    assert((pa >> 12u64) << 12u64 == pa & !0xFFFu64) by (bit_vector);
    assert forall|v: u64| #[trigger] after.translation(v) == if (v >> 12) % 0x800_0000 == (va >> 12)
        % 0x800_0000 {
        TranslateResult::Mapped(((pa >> 12) << 12) | (v & 0xFFF))
    } else {
        before.translation(v)
    } by {
        law_same_page_bits(va, v);
        law_page_translation_plain(pa, flags, v);
    }
}

/// After `map_superpage(va, pa, flags)` with flags confined to the flag
/// bits, every address `v` whose bits 21 to 38 match `va` translates to
/// `pa` plus the offset of `v` in its 2 MiB region (whatever 4 KiB pages
/// were mapped there before); every other address keeps its translation.
pub proof fn law_map_superpage_translations(before: Sv39PageTable, after: Sv39PageTable, va: u64, pa: u64, flags: u64)
    requires
        superpage_mapped(before, after, va, pa, flags),
        pa % 0x20_0000 == 0,
        flags < 0x400,
    ensures
        forall|v: u64|
            (v >> 21) % 0x4_0000 == (va >> 21) % 0x4_0000 ==> #[trigger] after.translation(v)
                == TranslateResult::Mapped(pa | (v & 0x1F_FFFF)),
        forall|v: u64|
            (v >> 21) % 0x4_0000 != (va >> 21) % 0x4_0000 ==> #[trigger] after.translation(v)
                == before.translation(v),
{
    assert forall|v: u64| #[trigger] after.translation(v) == if (v >> 21) % 0x4_0000 == (va >> 21)
        % 0x4_0000 {
        TranslateResult::Mapped(pa | (v & 0x1F_FFFF))
    } else {
        before.translation(v)
    } by {
        law_same_superpage_bits(va, v);
        law_superpage_translation(pa, flags, v);
    }
}

/// `map_page` ignores the low 12 bits of both addresses: mapping `va` to
/// `pa` and mapping their page boundaries give the same translations.
pub proof fn law_map_page_aligns_down(
    t0: Sv39PageTable,
    t1: Sv39PageTable,
    t2: Sv39PageTable,
    va: u64,
    pa: u64,
    flags: u64,
)
    requires
        page_mapped(t0, t1, va, pa, flags),
        page_mapped(t0, t2, va & !0xFFFu64, pa & !0xFFFu64, flags),
    ensures
        forall|v: u64| #[trigger] t1.translation(v) == t2.translation(v),
{
    let va0 = va & !0xFFFu64;
    let pa0 = pa & !0xFFFu64;
    assert(pa0 >> 12u64 == pa >> 12u64) by (bit_vector)
        requires
            pa0 == pa & !0xFFFu64,
    ;
    assert(leaf_entry(pa0, flags) == leaf_entry(pa, flags));
    assert((va0 >> 12u64) % 0x800_0000u64 == (va >> 12u64) % 0x800_0000u64) by (bit_vector)
        requires
            va0 == va & !0xFFFu64,
    ;
    assert forall|v: u64| #[trigger] t1.translation(v) == t2.translation(v) by {
        law_same_page_bits(va, v);
        law_same_page_bits(va0, v);
    }
}

/// Mapping the same page twice: the second mapping replaces the first.
pub proof fn law_last_mapping_wins(
    t0: Sv39PageTable,
    t1: Sv39PageTable,
    t2: Sv39PageTable,
    va: u64,
    pa1: u64,
    flags1: u64,
    vb: u64,
    pa2: u64,
    flags2: u64,
)
    requires
        page_mapped(t0, t1, va, pa1, flags1),
        page_mapped(t1, t2, vb, pa2, flags2),
        same_page(va, vb),
    ensures
        page_mapped(t0, t2, vb, pa2, flags2),
{
    assert forall|x: u64| #[trigger] t2.translation(x) == if same_page(vb, x) {
        leaf_result(leaf_entry(pa2, flags2), 0, x)
    } else {
        t0.translation(x)
    } by {
        assert(t2.translation(x) == if same_page(vb, x) {
            leaf_result(leaf_entry(pa2, flags2), 0, x)
        } else {
            t1.translation(x)
        });
        assert(t1.translation(x) == if same_page(va, x) {
            leaf_result(leaf_entry(pa1, flags1), 0, x)
        } else {
            t0.translation(x)
        });
    }
}

/// Mapping two different pages gives the same translations in either order.
pub proof fn law_distinct_pages_commute(
    t0: Sv39PageTable,
    t1: Sv39PageTable,
    t2: Sv39PageTable,
    u1: Sv39PageTable,
    u2: Sv39PageTable,
    va: u64,
    pa: u64,
    fa: u64,
    vb: u64,
    pb: u64,
    fb: u64,
)
    requires
        !same_page(va, vb),
        page_mapped(t0, t1, va, pa, fa),
        page_mapped(t1, t2, vb, pb, fb),
        page_mapped(t0, u1, vb, pb, fb),
        page_mapped(u1, u2, va, pa, fa),
    ensures
        forall|x: u64| #[trigger] t2.translation(x) == u2.translation(x),
{
    assert forall|x: u64| #[trigger] t2.translation(x) == u2.translation(x) by {
        assert(t1.translation(x) == if same_page(va, x) {
            leaf_result(leaf_entry(pa, fa), 0, x)
        } else {
            t0.translation(x)
        });
        assert(u1.translation(x) == if same_page(vb, x) {
            leaf_result(leaf_entry(pb, fb), 0, x)
        } else {
            t0.translation(x)
        });
    }
}

/// A 2 MiB mapping and a 4 KiB mapping outside its region both stay in
/// force, whichever came first.
pub proof fn law_superpage_and_page_coexist(
    t0: Sv39PageTable,
    t1: Sv39PageTable,
    t2: Sv39PageTable,
    vs: u64,
    ps: u64,
    fs: u64,
    vp: u64,
    pp: u64,
    fp: u64,
)
    requires
        !same_superpage(vs, vp),
        superpage_mapped(t0, t1, vs, ps, fs),
        page_mapped(t1, t2, vp, pp, fp),
    ensures
        forall|x: u64|
            same_superpage(vs, x) ==> #[trigger] t2.translation(x) == TranslateResult::Mapped(
                leaf_address(leaf_entry(ps, fs), 1, x),
            ),
        forall|x: u64| same_page(vp, x) ==> #[trigger] t2.translation(x) == leaf_result(leaf_entry(pp, fp), 0, x),
{
    assert forall|x: u64| same_superpage(vs, x) implies #[trigger] t2.translation(x) == TranslateResult::Mapped(
        leaf_address(leaf_entry(ps, fs), 1, x),
    ) by {
        assert(t1.translation(x) == TranslateResult::Mapped(leaf_address(leaf_entry(ps, fs), 1, x)));
    }
}

} // verus!
