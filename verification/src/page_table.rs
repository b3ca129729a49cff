//! A simulated RISC-V SV39 three-level page table.
//!
//! A 39-bit virtual address is split into three 9-bit virtual page numbers
//! and a 12-bit page offset:
//!
//! ```text
//! 38        30 29       21 20       12 11        0
//! | VPN[2]   |  VPN[1]   |  VPN[0]   |  offset   |
//! ```
//!
//! Page-table pages live in a map from physical page number to node.  A page
//! table entry keeps its physical page number from bit 10 upwards and its
//! flags in the low bits.

use std::collections::HashMap;
use vstd::prelude::*;

verus! {

broadcast use vstd::std_specs::hash::group_hash_axioms;

/// Size of a base page: 4 KiB.
pub const PAGE_SIZE: usize = 4096;

/// Number of entries in one page-table node (2^9).
pub const PT_ENTRIES: usize = 512;

/// Valid bit of a page table entry.
pub const PTE_V: u64 = 0b0001;

/// Readable bit of a page table entry.
pub const PTE_R: u64 = 0b0010;

/// Writable bit of a page table entry.
pub const PTE_W: u64 = 0b0100;

/// Executable bit of a page table entry.
pub const PTE_X: u64 = 0b1000;

/// Position of the physical page number inside a page table entry.
const PPN_SHIFT: u64 = 10;

/// Physical page numbers handed out by the node allocator stay below this
/// bound, so that `ppn << PPN_SHIFT` keeps every bit of the page number.
pub const PPN_LIMIT: u64 = 0x40_0000_0000_0000;

/// The virtual page number that selects the entry at `level` (0, 1 or 2).
pub open spec fn vpn_of(va: u64, level: nat) -> u64 {
    (va >> ((12 + 9 * level) as u64)) & 0x1FF
}

/// The entry is present.
pub open spec fn is_valid(pte: u64) -> bool {
    pte & PTE_V != 0
}

/// The bits R, W and X together: an entry with any of them maps memory.
pub const LEAF_FLAGS: u64 = 0b1110;

/// The entry maps memory (one of R, W or X is set).
pub open spec fn is_leaf(pte: u64) -> bool {
    pte & LEAF_FLAGS != 0
}

/// The entry points to the next-level node.
pub open spec fn is_link(pte: u64) -> bool {
    is_valid(pte) && !is_leaf(pte)
}

/// The physical page number held by an entry.
pub open spec fn pte_ppn(pte: u64) -> u64 {
    pte >> 10
}

/// Mask of the address bits that a leaf at `level` passes through unchanged.
pub open spec fn offset_mask_of(level: nat) -> u64 {
    if level == 0 {
        0xFFF
    } else if level == 1 {
        0x1F_FFFF
    } else {
        0x3FFF_FFFF
    }
}

/// The physical address that a leaf entry at `level` gives for `va`.
pub open spec fn leaf_address(pte: u64, level: nat, va: u64) -> u64 {
    ((pte >> 10) << 12) | (va & offset_mask_of(level))
}

/// The entry that the mapping functions write for physical address `pa`.
pub open spec fn leaf_entry(pa: u64, flags: u64) -> u64 {
    ((pa >> 12) << 10) | flags | PTE_V
}

/// The entry that links a node to the node at physical page `ppn`.
pub open spec fn link_entry(ppn: u64) -> u64 {
    (ppn << 10) | PTE_V
}

/// What a page-table walk gives once it has read the valid entry `pte` as
/// the last entry of the walk at `level`.
pub open spec fn leaf_result(pte: u64, level: nat, va: u64) -> TranslateResult {
    if is_leaf(pte) {
        TranslateResult::Mapped(leaf_address(pte, level, va))
    } else {
        TranslateResult::PageFault
    }
}

/// `a` and `b` select the same 4 KiB page: all three page numbers agree.
pub open spec fn same_page(a: u64, b: u64) -> bool {
    &&& vpn_of(a, 2) == vpn_of(b, 2)
    &&& vpn_of(a, 1) == vpn_of(b, 1)
    &&& vpn_of(a, 0) == vpn_of(b, 0)
}

/// `a` and `b` select the same 2 MiB region: the page numbers of levels 2
/// and 1 agree.
pub open spec fn same_superpage(a: u64, b: u64) -> bool {
    &&& vpn_of(a, 2) == vpn_of(b, 2)
    &&& vpn_of(a, 1) == vpn_of(b, 1)
}

/// `after` is `before` with the 4 KiB page of `va` mapped through the leaf
/// entry built from `pa` and `flags`, and nothing else changed.
pub open spec fn page_mapped(before: Sv39PageTable, after: Sv39PageTable, va: u64, pa: u64, flags: u64) -> bool {
    forall|va2: u64|
        #[trigger] after.translation(va2) == if same_page(va, va2) {
            leaf_result(leaf_entry(pa, flags), 0, va2)
        } else {
            before.translation(va2)
        }
}

/// `after` is `before` with the 2 MiB region of `va` mapped through the
/// level-1 leaf entry built from `pa` and `flags`, and nothing else changed.
pub open spec fn superpage_mapped(before: Sv39PageTable, after: Sv39PageTable, va: u64, pa: u64, flags: u64) -> bool {
    forall|va2: u64|
        #[trigger] after.translation(va2) == if same_superpage(va, va2) {
            TranslateResult::Mapped(leaf_address(leaf_entry(pa, flags), 1, va2))
        } else {
            before.translation(va2)
        }
}

/// The page-table walk for `va`, starting at node `ppn` on `level`.
pub open spec fn walk(nodes: Map<u64, PageTableNode>, ppn: u64, level: nat, va: u64) -> TranslateResult
    decreases level,
{
    let pte = nodes[ppn].entries@[vpn_of(va, level) as int];
    if !is_valid(pte) {
        TranslateResult::PageFault
    } else if is_leaf(pte) {
        TranslateResult::Mapped(leaf_address(pte, level, va))
    } else if level == 0 {
        TranslateResult::PageFault
    } else {
        walk(nodes, pte_ppn(pte), (level - 1) as nat, va)
    }
}

/// Entry `i` of node `p` links to a node on the next level down.
pub open spec fn is_table_link(nodes: Map<u64, PageTableNode>, levels: Map<u64, nat>, p: u64, i: int) -> bool {
    &&& nodes.contains_key(p)
    &&& levels[p] >= 1
    &&& 0 <= i < PT_ENTRIES
    &&& is_link(nodes[p].entries@[i])
}

/// Entry `i` of node `p` is what a node on its level may hold: nothing, a
/// link to an existing node one level down, or (on level 1) a 2 MiB leaf.
/// Entries of level-0 nodes are never followed and may hold anything.
pub open spec fn entry_ok(nodes: Map<u64, PageTableNode>, levels: Map<u64, nat>, p: u64, i: int) -> bool {
    let e = nodes[p].entries@[i];
    ||| levels[p] == 0
    ||| !is_valid(e)
    ||| is_leaf(e) && levels[p] == 1
    ||| is_link(e) && nodes.contains_key(pte_ppn(e)) && levels[pte_ppn(e)] + 1 == levels[p]
}

/// The shape that every page table built by this module keeps: the root on
/// level 2, every followed link leading to an existing node one level down,
/// no node linked twice, and all nodes below the allocator's next number.
pub open spec fn tables_wf(nodes: Map<u64, PageTableNode>, levels: Map<u64, nat>, root: u64, next: u64) -> bool {
    &&& nodes.dom() == levels.dom()
    &&& nodes.contains_key(root)
    &&& levels[root] == 2
    &&& next <= PPN_LIMIT
    &&& forall|p: u64| #[trigger] nodes.contains_key(p) ==> p < next && levels[p] <= 2
    &&& forall|p: u64, i: int| nodes.contains_key(p) && 0 <= i < PT_ENTRIES ==> #[trigger] entry_ok(nodes, levels, p, i)
    &&& forall|p: u64, i: int, q: u64, j: int|
        #[trigger] is_table_link(nodes, levels, p, i) && #[trigger] is_table_link(nodes, levels, q, j)
            && pte_ppn(nodes[p].entries@[i]) == pte_ppn(nodes[q].entries@[j]) ==> p == q && i == j
}

/// Every virtual page number fits a node.
pub proof fn lemma_vpn_bound(va: u64, level: nat)
    ensures
        vpn_of(va, level) < PT_ENTRIES,
{
    let s = (12 + 9 * level) as u64;
    assert((va >> s) & 0x1FF < 512) by (bit_vector);
}

/// A link entry is a valid non-leaf entry that gives back its page number.
proof fn lemma_link_entry(ppn: u64)
    requires
        ppn < PPN_LIMIT,
    ensures
        is_link(link_entry(ppn)),
        pte_ppn(link_entry(ppn)) == ppn,
{
    assert(((ppn << 10u64) | 1u64) & 1u64 != 0 && ((ppn << 10u64) | 1u64) & 14u64 == 0
        && ((ppn << 10u64) | 1u64) >> 10u64 == ppn) by (bit_vector)
        requires
            ppn < 0x40_0000_0000_0000u64,
    ;
}

/// A zero entry is not present.
proof fn lemma_zero_entry()
    ensures
        !is_valid(0),
{
    assert(0u64 & 1u64 == 0) by (bit_vector);
}

/// The entry written by the mapping functions is present, and it maps
/// memory exactly when the flags hold R, W or X.
pub proof fn lemma_leaf_entry(pa: u64, flags: u64)
    ensures
        is_valid(leaf_entry(pa, flags)),
        is_leaf(leaf_entry(pa, flags)) <==> flags & LEAF_FLAGS != 0,
{
    assert((((pa >> 12u64) << 10u64) | flags | 1u64) & 1u64 != 0) by (bit_vector);
    assert((((pa >> 12u64) << 10u64) | flags | 1u64) & 14u64 == flags & 14u64) by (bit_vector);
}

/// Adding a fresh node with no present entry keeps the shape of the table.
proof fn lemma_insert_fresh_wf(
    n1: Map<u64, PageTableNode>,
    lv1: Map<u64, nat>,
    n2: Map<u64, PageTableNode>,
    lv2: Map<u64, nat>,
    root: u64,
    next: u64,
    c: u64,
)
    requires
        tables_wf(n1, lv1, root, next),
        c == next,
        next < PPN_LIMIT,
        n2.dom() == n1.dom().insert(c),
        lv2 == lv1.insert(c, lv2[c]),
        lv2[c] <= 2,
        forall|q: u64| q != c ==> #[trigger] n2[q] == n1[q],
        forall|i: int| 0 <= i < PT_ENTRIES ==> !is_valid(#[trigger] n2[c].entries@[i]),
    ensures
        tables_wf(n2, lv2, root, (next + 1) as u64),
        forall|q: u64, j: int| #[trigger] is_table_link(n2, lv2, q, j) ==> pte_ppn(n2[q].entries@[j]) != c,
{
    assert(n2.dom() =~= lv2.dom());
    assert forall|q: u64, j: int| #[trigger] is_table_link(n2, lv2, q, j) implies pte_ppn(n2[q].entries@[j]) != c by {
        assert(entry_ok(n1, lv1, q, j));
    }
    assert forall|p: u64, i: int| n2.contains_key(p) && 0 <= i < PT_ENTRIES implies #[trigger] entry_ok(n2, lv2, p, i) by {
        if p != c {
            assert(entry_ok(n1, lv1, p, i));
        }
    }
    assert forall|p: u64, i: int, q: u64, j: int|
        #[trigger] is_table_link(n2, lv2, p, i) && #[trigger] is_table_link(n2, lv2, q, j)
            && pte_ppn(n2[p].entries@[i]) == pte_ppn(n2[q].entries@[j]) implies p == q && i == j by {
        assert(is_table_link(n1, lv1, p, i));
        assert(is_table_link(n1, lv1, q, j));
    }
}

/// Adding a node at a number that no node had before changes no walk.
proof fn lemma_walk_insert_fresh(
    n1: Map<u64, PageTableNode>,
    lv1: Map<u64, nat>,
    n2: Map<u64, PageTableNode>,
    q: u64,
    level: nat,
    va: u64,
    c: u64,
)
    requires
        forall|p: u64, i: int| n1.contains_key(p) && 0 <= i < PT_ENTRIES ==> #[trigger] entry_ok(n1, lv1, p, i),
        n1.contains_key(q),
        lv1[q] == level,
        !n1.contains_key(c),
        forall|p: u64| p != c ==> #[trigger] n2[p] == n1[p],
    ensures
        walk(n2, q, level, va) == walk(n1, q, level, va),
    decreases level,
{
    lemma_vpn_bound(va, level);
    let pte = n1[q].entries@[vpn_of(va, level) as int];
    assert(entry_ok(n1, lv1, q, vpn_of(va, level) as int));
    if is_link(pte) && level > 0 {
        lemma_walk_insert_fresh(n1, lv1, n2, pte_ppn(pte), (level - 1) as nat, va, c);
    }
}

/// Linking entry `i` of node `p` to an empty node `c` that nothing links to
/// yet keeps the shape of the table.
proof fn lemma_link_wf(
    n1: Map<u64, PageTableNode>,
    lv: Map<u64, nat>,
    n2: Map<u64, PageTableNode>,
    root: u64,
    next: u64,
    p: u64,
    i: int,
    c: u64,
)
    requires
        tables_wf(n1, lv, root, next),
        n1.contains_key(p),
        n1.contains_key(c),
        p != c,
        lv[c] + 1 == lv[p],
        c < PPN_LIMIT,
        0 <= i < PT_ENTRIES,
        forall|q: u64, j: int| #[trigger] is_table_link(n1, lv, q, j) ==> pte_ppn(n1[q].entries@[j]) != c,
        n2.dom() == n1.dom(),
        n2[p].entries@ == n1[p].entries@.update(i, link_entry(c)),
        forall|q: u64| q != p ==> #[trigger] n2[q] == n1[q],
    ensures
        tables_wf(n2, lv, root, next),
{
    lemma_link_entry(c);
    assert forall|q: u64, j: int| n2.contains_key(q) && 0 <= j < PT_ENTRIES implies #[trigger] entry_ok(n2, lv, q, j) by {
        if !(q == p && j == i) {
            assert(entry_ok(n1, lv, q, j));
        }
    }
    assert forall|q: u64, j: int| #[trigger] is_table_link(n2, lv, q, j) && !(q == p && j == i)
        implies is_table_link(n1, lv, q, j) && n2[q].entries@[j] == n1[q].entries@[j] by {}
    assert forall|q1: u64, j1: int, q2: u64, j2: int|
        #[trigger] is_table_link(n2, lv, q1, j1) && #[trigger] is_table_link(n2, lv, q2, j2)
            && pte_ppn(n2[q1].entries@[j1]) == pte_ppn(n2[q2].entries@[j2]) implies q1 == q2 && j1 == j2 by {
        if !(q1 == p && j1 == i) {
            assert(is_table_link(n1, lv, q1, j1));
        }
        if !(q2 == p && j2 == i) {
            assert(is_table_link(n1, lv, q2, j2));
        }
    }
}

/// Linking an absent entry to an empty node changes no walk: a walk that
/// faulted on the absent entry now faults on the empty node.
proof fn lemma_walk_link(
    n1: Map<u64, PageTableNode>,
    lv: Map<u64, nat>,
    n2: Map<u64, PageTableNode>,
    q: u64,
    level: nat,
    va: u64,
    p: u64,
    i: int,
    c: u64,
)
    requires
        forall|x: u64, j: int| n1.contains_key(x) && 0 <= j < PT_ENTRIES ==> #[trigger] entry_ok(n1, lv, x, j),
        n1.contains_key(q),
        lv[q] == level,
        lv[p] >= 1,
        p != c,
        c < PPN_LIMIT,
        0 <= i < PT_ENTRIES,
        !is_valid(n1[p].entries@[i]),
        forall|j: int| 0 <= j < PT_ENTRIES ==> #[trigger] n1[c].entries@[j] == 0,
        n2[p].entries@ == n1[p].entries@.update(i, link_entry(c)),
        forall|x: u64| x != p ==> #[trigger] n2[x] == n1[x],
    ensures
        walk(n2, q, level, va) == walk(n1, q, level, va),
    decreases level,
{
    lemma_vpn_bound(va, level);
    lemma_link_entry(c);
    lemma_zero_entry();
    let k = vpn_of(va, level) as int;
    if q == p && k == i {
        lemma_vpn_bound(va, (level - 1) as nat);
        assert(n2[c] == n1[c]);
        assert(walk(n2, c, (level - 1) as nat, va) == TranslateResult::PageFault);
    } else {
        assert(n2[q].entries@[k] == n1[q].entries@[k]);
        let pte = n1[q].entries@[k];
        assert(entry_ok(n1, lv, q, k));
        if is_link(pte) && level > 0 {
            lemma_walk_link(n1, lv, n2, pte_ppn(pte), (level - 1) as nat, va, p, i, c);
        }
    }
}

/// Writing entry `vpn_of(va, 0)` of the level-0 node that the walk for `va`
/// reaches changes the walks of exactly the addresses in the page of `va`.
proof fn lemma_write_level0(
    n1: Map<u64, PageTableNode>,
    lv: Map<u64, nat>,
    n2: Map<u64, PageTableNode>,
    root: u64,
    next: u64,
    va: u64,
    mid: u64,
    leaf: u64,
    v: u64,
)
    requires
        tables_wf(n1, lv, root, next),
        is_link(n1[root].entries@[vpn_of(va, 2) as int]),
        pte_ppn(n1[root].entries@[vpn_of(va, 2) as int]) == mid,
        is_link(n1[mid].entries@[vpn_of(va, 1) as int]),
        pte_ppn(n1[mid].entries@[vpn_of(va, 1) as int]) == leaf,
        is_valid(v),
        n2.dom() == n1.dom(),
        n2[leaf].entries@ == n1[leaf].entries@.update(vpn_of(va, 0) as int, v),
        forall|q: u64| q != leaf ==> #[trigger] n2[q] == n1[q],
    ensures
        tables_wf(n2, lv, root, next),
        forall|va2: u64|
            #[trigger] walk(n2, root, 2, va2) == if same_page(va, va2) {
                leaf_result(v, 0, va2)
            } else {
                walk(n1, root, 2, va2)
            },
{
    lemma_vpn_bound(va, 2);
    lemma_vpn_bound(va, 1);
    lemma_vpn_bound(va, 0);
    assert(entry_ok(n1, lv, root, vpn_of(va, 2) as int));
    assert(entry_ok(n1, lv, mid, vpn_of(va, 1) as int));
    assert(lv[mid] == 1 && lv[leaf] == 0);
    assert forall|q: u64, j: int| n2.contains_key(q) && 0 <= j < PT_ENTRIES implies #[trigger] entry_ok(n2, lv, q, j) by {
        if q != leaf {
            assert(entry_ok(n1, lv, q, j));
        }
    }
    assert forall|q: u64, j: int| #[trigger] is_table_link(n2, lv, q, j)
        implies is_table_link(n1, lv, q, j) && n2[q].entries@[j] == n1[q].entries@[j] by {}
    assert forall|q1: u64, j1: int, q2: u64, j2: int|
        #[trigger] is_table_link(n2, lv, q1, j1) && #[trigger] is_table_link(n2, lv, q2, j2)
            && pte_ppn(n2[q1].entries@[j1]) == pte_ppn(n2[q2].entries@[j2]) implies q1 == q2 && j1 == j2 by {
        assert(is_table_link(n1, lv, q1, j1));
        assert(is_table_link(n1, lv, q2, j2));
    }
    assert forall|va2: u64|
        #[trigger] walk(n2, root, 2, va2) == if same_page(va, va2) {
            leaf_result(v, 0, va2)
        } else {
            walk(n1, root, 2, va2)
        } by {
        lemma_vpn_bound(va2, 2);
        lemma_vpn_bound(va2, 1);
        lemma_vpn_bound(va2, 0);
        let k2 = vpn_of(va2, 2) as int;
        let k1 = vpn_of(va2, 1) as int;
        let k0 = vpn_of(va2, 0) as int;
        let a2 = n1[root].entries@[k2];
        assert(n2[root] == n1[root]);
        assert(entry_ok(n1, lv, root, k2));
        if is_link(a2) {
            let t1 = pte_ppn(a2);
            assert(n2[t1] == n1[t1]);
            let a1 = n1[t1].entries@[k1];
            assert(entry_ok(n1, lv, t1, k1));
            if is_link(a1) {
                let t0 = pte_ppn(a1);
                if t0 == leaf && k0 == vpn_of(va, 0) {
                    assert(is_table_link(n1, lv, t1, k1));
                    assert(is_table_link(n1, lv, mid, vpn_of(va, 1) as int));
                    assert(t1 == mid && k1 == vpn_of(va, 1));
                    assert(is_table_link(n1, lv, root, k2));
                    assert(is_table_link(n1, lv, root, vpn_of(va, 2) as int));
                    assert(same_page(va, va2));
                    assert(n2[t0].entries@[k0] == v);
                    assert(walk(n2, t0, 0, va2) == leaf_result(v, 0, va2));
                } else {
                    assert(n2[t0].entries@[k0] == n1[t0].entries@[k0]);
                    assert(walk(n2, t0, 0, va2) == walk(n1, t0, 0, va2));
                    if same_page(va, va2) {
                        assert(t1 == mid);
                    }
                }
                assert(walk(n2, t1, 1, va2) == walk(n2, t0, 0, va2));
                assert(walk(n1, t1, 1, va2) == walk(n1, t0, 0, va2));
            } else {
                if same_page(va, va2) {
                    assert(t1 == mid);
                }
            }
        }
    }
}

/// Writing the leaf `v` into entry `vpn_of(va, 1)` of the level-1 node that
/// the walk for `va` reaches changes the walks of exactly the addresses in
/// the 2 MiB region of `va`.
proof fn lemma_write_level1(
    n1: Map<u64, PageTableNode>,
    lv: Map<u64, nat>,
    n2: Map<u64, PageTableNode>,
    root: u64,
    next: u64,
    va: u64,
    mid: u64,
    v: u64,
)
    requires
        tables_wf(n1, lv, root, next),
        is_link(n1[root].entries@[vpn_of(va, 2) as int]),
        pte_ppn(n1[root].entries@[vpn_of(va, 2) as int]) == mid,
        is_valid(v),
        is_leaf(v),
        n2.dom() == n1.dom(),
        n2[mid].entries@ == n1[mid].entries@.update(vpn_of(va, 1) as int, v),
        forall|q: u64| q != mid ==> #[trigger] n2[q] == n1[q],
    ensures
        tables_wf(n2, lv, root, next),
        forall|va2: u64|
            #[trigger] walk(n2, root, 2, va2) == if same_superpage(va, va2) {
                TranslateResult::Mapped(leaf_address(v, 1, va2))
            } else {
                walk(n1, root, 2, va2)
            },
{
    lemma_vpn_bound(va, 2);
    lemma_vpn_bound(va, 1);
    assert(entry_ok(n1, lv, root, vpn_of(va, 2) as int));
    assert(lv[mid] == 1);
    assert forall|q: u64, j: int| n2.contains_key(q) && 0 <= j < PT_ENTRIES implies #[trigger] entry_ok(n2, lv, q, j) by {
        if !(q == mid && j == vpn_of(va, 1)) {
            assert(entry_ok(n1, lv, q, j));
        }
    }
    assert forall|q: u64, j: int| #[trigger] is_table_link(n2, lv, q, j)
        implies is_table_link(n1, lv, q, j) && n2[q].entries@[j] == n1[q].entries@[j] by {}
    assert forall|q1: u64, j1: int, q2: u64, j2: int|
        #[trigger] is_table_link(n2, lv, q1, j1) && #[trigger] is_table_link(n2, lv, q2, j2)
            && pte_ppn(n2[q1].entries@[j1]) == pte_ppn(n2[q2].entries@[j2]) implies q1 == q2 && j1 == j2 by {
        assert(is_table_link(n1, lv, q1, j1));
        assert(is_table_link(n1, lv, q2, j2));
    }
    assert forall|va2: u64|
        #[trigger] walk(n2, root, 2, va2) == if same_superpage(va, va2) {
            TranslateResult::Mapped(leaf_address(v, 1, va2))
        } else {
            walk(n1, root, 2, va2)
        } by {
        lemma_vpn_bound(va2, 2);
        lemma_vpn_bound(va2, 1);
        lemma_vpn_bound(va2, 0);
        let k2 = vpn_of(va2, 2) as int;
        let k1 = vpn_of(va2, 1) as int;
        let k0 = vpn_of(va2, 0) as int;
        let a2 = n1[root].entries@[k2];
        assert(n2[root] == n1[root]);
        assert(entry_ok(n1, lv, root, k2));
        if is_link(a2) {
            let t1 = pte_ppn(a2);
            if t1 == mid && k1 == vpn_of(va, 1) {
                assert(is_table_link(n1, lv, root, k2));
                assert(is_table_link(n1, lv, root, vpn_of(va, 2) as int));
                assert(same_superpage(va, va2));
                assert(n2[t1].entries@[k1] == v);
            } else {
                assert(n2[t1].entries@[k1] == n1[t1].entries@[k1]);
                let a1 = n1[t1].entries@[k1];
                assert(entry_ok(n1, lv, t1, k1));
                if is_link(a1) {
                    let t0 = pte_ppn(a1);
                    assert(n2[t0] == n1[t0]);
                    assert(walk(n2, t0, 0, va2) == walk(n1, t0, 0, va2));
                }
                assert(walk(n2, t1, 1, va2) == walk(n1, t1, 1, va2));
            }
        }
    }
}

/// A page-table node: 512 entries.
#[derive(Clone)]
pub struct PageTableNode {
    pub entries: [u64; PT_ENTRIES],
}

impl PageTableNode {
    /// A node whose entries are all zero (not present).
    pub fn new() -> (node: Self)
        ensures
            forall|i: int| 0 <= i < PT_ENTRIES ==> node.entries@[i] == 0,
    {
        Self { entries: [0; PT_ENTRIES] }
    }
}

impl Default for PageTableNode {
    fn default() -> (node: Self)
        ensures
            forall|i: int| 0 <= i < PT_ENTRIES ==> node.entries@[i] == 0,
    {
        Self::new()
    }
}

/// The outcome of an address translation.
#[derive(Debug, PartialEq, Eq, Structural)]
pub enum TranslateResult {
    Mapped(u64),
    PageFault,
}

/// The simulated three-level page table.
pub struct Sv39PageTable {
    /// Physical page number -> page-table node.
    nodes: HashMap<u64, PageTableNode>,
    /// Physical page number of the root node.
    pub root_ppn: u64,
    /// Next physical page number that the node allocator hands out.
    next_ppn: u64,
    /// The level (2, 1 or 0) on which each node is used.
    levels: Ghost<Map<u64, nat>>,
}

impl Sv39PageTable {
    /// The nodes, by physical page number.
    pub closed spec fn table(&self) -> Map<u64, PageTableNode> {
        self.nodes@
    }

    /// The physical page number of the root node.
    pub closed spec fn root(&self) -> u64 {
        self.root_ppn
    }

    /// The physical page number that the next allocated node receives.
    pub closed spec fn next_free_ppn(&self) -> u64 {
        self.next_ppn
    }

    /// The table keeps the shape described by `tables_wf`.
    pub closed spec fn wf(&self) -> bool {
        tables_wf(self.nodes@, self.levels@, self.root_ppn, self.next_ppn)
    }

    /// What `translate` gives for `va`: the page-table walk from the root.
    pub open spec fn translation(&self, va: u64) -> TranslateResult {
        walk(self.table(), self.root(), 2, va)
    }

    /// The 2 MiB region of `va` is mapped by a leaf entry on level 1.
    pub open spec fn superpage_covers(&self, va: u64) -> bool {
        let e2 = self.table()[self.root()].entries@[vpn_of(va, 2) as int];
        let e1 = self.table()[pte_ppn(e2)].entries@[vpn_of(va, 1) as int];
        is_link(e2) && is_valid(e1) && is_leaf(e1)
    }

    /// How many intermediate nodes `map_page(va, ..)` has to allocate: two
    /// when the level-2 entry of `va` is absent, one when only its level-1
    /// entry is absent, none otherwise.
    pub open spec fn tables_missing(&self, va: u64) -> nat {
        let e2 = self.table()[self.root()].entries@[vpn_of(va, 2) as int];
        let e1 = self.table()[pte_ppn(e2)].entries@[vpn_of(va, 1) as int];
        if !is_valid(e2) {
            2
        } else if !is_valid(e1) {
            1
        } else {
            0
        }
    }

    /// An empty page table: a root node at physical page 0x80000 whose
    /// entries are all absent, so that every address faults.
    pub fn new() -> (pt: Self)
        ensures
            pt.wf(),
            pt.root() == 0x80000,
            pt.next_free_ppn() == 0x80001,
            pt.table().dom() == set![0x80000u64],
            forall|i: int| 0 <= i < PT_ENTRIES ==> #[trigger] pt.table()[0x80000].entries@[i] == 0,
            forall|va: u64| #[trigger] pt.translation(va) == TranslateResult::PageFault,
            forall|va: u64| !#[trigger] pt.superpage_covers(va),
    {
        let mut pt = Self {
            nodes: HashMap::new(),
            root_ppn: 0x80000,
            next_ppn: 0x80001,
            levels: Ghost(Map::<u64, nat>::empty().insert(0x80000, 2)),
        };
        pt.nodes.insert(pt.root_ppn, PageTableNode::new());
        proof {
            lemma_zero_entry();
            assert forall|va: u64| pt.translation(va) == TranslateResult::PageFault by {
                lemma_vpn_bound(va, 2);
            }
            assert forall|va: u64| !#[trigger] pt.superpage_covers(va) by {
                lemma_vpn_bound(va, 2);
            }
            assert(pt.nodes@.dom() =~= pt.levels@.dom());
            assert(pt.nodes@.dom() =~= set![0x80000u64]);
        }
        pt
    }

    /// The physical page number of the root node.
    pub fn root_ppn(&self) -> (ppn: u64)
        ensures
            ppn == self.root(),
    {
        self.root_ppn
    }

    /// The node at physical page `ppn`.
    fn get_node(&self, ppn: u64) -> (node: &PageTableNode)
        requires
            self.table().contains_key(ppn),
        ensures
            *node == self.table()[ppn],
    {
        self.nodes.get(&ppn).unwrap()
    }

    /// Store `value` in entry `idx` of the node at physical page `ppn`.
    fn set_entry(&mut self, ppn: u64, idx: usize, value: u64)
        requires
            old(self).table().contains_key(ppn),
            idx < PT_ENTRIES,
        ensures
            final(self).table().dom() == old(self).table().dom(),
            final(self).table()[ppn].entries@ == old(self).table()[ppn].entries@.update(idx as int, value),
            forall|q: u64| q != ppn ==> #[trigger] final(self).table()[q] == old(self).table()[q],
            final(self).root_ppn == old(self).root_ppn,
            final(self).next_ppn == old(self).next_ppn,
            final(self).levels@ == old(self).levels@,
    {
        let mut node = self.nodes.remove(&ppn).unwrap();
        node.entries[idx] = value;
        self.nodes.insert(ppn, node);
        proof {
            assert(self.nodes@.dom() =~= old(self).nodes@.dom());
        }
    }

    /// Allocate a new physical page, initialised as an empty node used on
    /// `level`, and return its physical page number.
    fn alloc_node(&mut self, Ghost(level): Ghost<nat>) -> (ppn: u64)
        requires
            old(self).wf(),
            old(self).next_ppn < PPN_LIMIT,
            level <= 1,
        ensures
            ppn == old(self).next_ppn,
            final(self).next_ppn == old(self).next_ppn + 1,
            final(self).root_ppn == old(self).root_ppn,
            final(self).table().dom() == old(self).table().dom().insert(ppn),
            !old(self).table().contains_key(ppn),
            ppn != final(self).root_ppn,
            forall|q: u64| #[trigger] final(self).table().contains_key(q) ==> q < final(self).next_ppn,
            forall|q: u64| q != ppn ==> #[trigger] final(self).table()[q] == old(self).table()[q],
            forall|i: int| 0 <= i < PT_ENTRIES ==> #[trigger] final(self).table()[ppn].entries@[i] == 0,
            final(self).levels@ == old(self).levels@.insert(ppn, level),
            final(self).wf(),
            forall|q: u64, j: int| #[trigger] is_table_link(final(self).table(), final(self).levels@, q, j)
                ==> pte_ppn(final(self).table()[q].entries@[j]) != ppn,
            forall|va: u64| #[trigger] final(self).translation(va) == old(self).translation(va),
    {
        let ppn = self.next_ppn;
        self.next_ppn += 1;
        self.nodes.insert(ppn, PageTableNode::new());
        proof {
            self.levels@ = self.levels@.insert(ppn, level);
            lemma_zero_entry();
            assert(self.nodes@.dom() =~= old(self).nodes@.dom().insert(ppn));
            assert(self.nodes@.dom() =~= self.levels@.dom());
            lemma_insert_fresh_wf(old(self).nodes@, old(self).levels@, self.nodes@, self.levels@,
                self.root_ppn, old(self).next_ppn, ppn);
            assert forall|va: u64| #[trigger] self.translation(va) == old(self).translation(va) by {
                lemma_walk_insert_fresh(old(self).nodes@, old(self).levels@, self.nodes@,
                    self.root_ppn, 2, va, ppn);
            }
        }
        ppn
    }
    /// One step of a walk that builds missing levels: the node one level
    /// below entry `vpn` of node `ppn`, allocated and linked there if the
    /// entry is absent.
    fn next_table(&mut self, ppn: u64, vpn: usize, Ghost(level): Ghost<nat>) -> (child: u64)
        requires
            old(self).wf(),
            old(self).table().contains_key(ppn),
            old(self).levels@[ppn] == level,
            level >= 1,
            vpn < PT_ENTRIES,
            !is_leaf(old(self).table()[ppn].entries@[vpn as int]) || !is_valid(
                old(self).table()[ppn].entries@[vpn as int],
            ),
            !is_valid(old(self).table()[ppn].entries@[vpn as int]) ==> old(self).next_ppn < PPN_LIMIT,
        ensures
            final(self).wf(),
            final(self).root_ppn == old(self).root_ppn,
            final(self).table().contains_key(child),
            final(self).levels@[child] + 1 == level,
            is_link(final(self).table()[ppn].entries@[vpn as int]),
            pte_ppn(final(self).table()[ppn].entries@[vpn as int]) == child,
            forall|q: u64| q != ppn && old(self).table().contains_key(q) ==> #[trigger] final(self).table()[q]
                == old(self).table()[q],
            forall|j: int| 0 <= j < PT_ENTRIES && j != vpn ==> #[trigger] final(self).table()[ppn].entries@[j]
                == old(self).table()[ppn].entries@[j],
            forall|q: u64| old(self).table().contains_key(q) ==> #[trigger] final(self).table().contains_key(q)
                && final(self).levels@[q] == old(self).levels@[q],
            is_valid(old(self).table()[ppn].entries@[vpn as int]) ==> child == pte_ppn(
                old(self).table()[ppn].entries@[vpn as int],
            ),
            !is_valid(old(self).table()[ppn].entries@[vpn as int]) ==> !old(self).table().contains_key(child),
            !old(self).table().contains_key(child) ==> forall|j: int|
                0 <= j < PT_ENTRIES ==> #[trigger] final(self).table()[child].entries@[j] == 0,
            final(self).next_ppn == if is_valid(old(self).table()[ppn].entries@[vpn as int]) {
                old(self).next_ppn
            } else {
                (old(self).next_ppn + 1) as u64
            },
            forall|va: u64| #[trigger] final(self).translation(va) == old(self).translation(va),
            forall|va: u64| #[trigger] final(self).superpage_covers(va) == old(self).superpage_covers(va),
    {
        let pte = self.get_node(ppn).entries[vpn];
        if (pte & PTE_V) == 0 {
            proof {
                assert(entry_ok(self.table(), self.levels@, ppn, vpn as int));
            }
            let new_node_ppn = self.alloc_node(Ghost((level - 1) as nat));
            let ghost mid = *self;
            let link = (new_node_ppn << PPN_SHIFT) | PTE_V;
            self.set_entry(ppn, vpn, link);
            proof {
                lemma_link_entry(new_node_ppn);
                lemma_link_wf(mid.nodes@, mid.levels@, self.nodes@, self.root_ppn, self.next_ppn,
                    ppn, vpn as int, new_node_ppn);
                assert forall|va: u64| #[trigger] self.translation(va) == old(self).translation(va) by {
                    lemma_walk_link(mid.nodes@, mid.levels@, self.nodes@, self.root_ppn, 2, va,
                        ppn, vpn as int, new_node_ppn);
                    assert(mid.translation(va) == old(self).translation(va));
                }
                lemma_zero_entry();
                assert forall|va: u64| #[trigger] self.superpage_covers(va) == old(self).superpage_covers(va) by {
                    lemma_vpn_bound(va, 2);
                    lemma_vpn_bound(va, 1);
                    let r = self.root_ppn;
                    let k2 = vpn_of(va, 2) as int;
                    let k1 = vpn_of(va, 1) as int;
                    let e2 = old(self).table()[r].entries@[k2];
                    assert(entry_ok(old(self).table(), old(self).levels@, r, k2));
                    assert(mid.table()[r] == old(self).table()[r]);
                    if is_link(e2) {
                        let t = pte_ppn(e2);
                        assert(mid.table()[t] == old(self).table()[t]);
                    }
                }
            }
            link >> PPN_SHIFT
        } else {
            proof {
                assert(entry_ok(self.table(), self.levels@, ppn, vpn as int));
            }
            pte >> PPN_SHIFT
        }
    }

    /// Extract the virtual page number of `level` from virtual address `va`:
    /// bits [38:30] for level 2, [29:21] for level 1 and [20:12] for level 0.
    pub fn extract_vpn(va: u64, level: usize) -> (vpn: usize)
        requires
            level <= 5,
        ensures
            vpn as u64 == vpn_of(va, level as nat),
            vpn < PT_ENTRIES,
    {
        let shift = 12 + level * 9;
        let v = (va >> shift) & 0x1FF;
        assert(v < 512) by (bit_vector)
            requires
                v == (va >> shift) & 0x1FF,
        ;
        v as usize
    }
}

impl Sv39PageTable {
    /// Map the 4 KiB page of virtual address `va` to the page of physical
    /// address `pa` with `flags` (for instance `PTE_V | PTE_R | PTE_W`):
    /// missing intermediate nodes are allocated, and the level-0 entry
    /// becomes `((pa >> 12) << 10) | flags | PTE_V`.
    ///
    /// Afterwards every address in the page of `va` translates through that
    /// entry, and every other address translates as before.
    pub fn map_page(&mut self, va: u64, pa: u64, flags: u64)
        requires
            old(self).wf(),
            !old(self).superpage_covers(va),
            old(self).next_free_ppn() + old(self).tables_missing(va) <= PPN_LIMIT,
        ensures
            final(self).wf(),
            final(self).root() == old(self).root(),
            final(self).next_free_ppn() == old(self).next_free_ppn() + old(self).tables_missing(va),
            page_mapped(*old(self), *final(self), va, pa, flags),
            old(self).table().dom().subset_of(final(self).table().dom()),
            forall|va2: u64| #[trigger] final(self).superpage_covers(va2) == old(self).superpage_covers(va2),
    {
        let mut current_ppn = self.root_ppn;
        proof {
            lemma_vpn_bound(va, 2);
            lemma_vpn_bound(va, 1);
            assert(entry_ok(self.table(), self.levels@, current_ppn, vpn_of(va, 2) as int));
        }
        // Level 2, then level 1: follow the entry, creating the node below
        // where it is absent.
        let vpn2 = Self::extract_vpn(va, 2);
        current_ppn = self.next_table(current_ppn, vpn2, Ghost(2));
        let ghost after2 = *self;
        proof {
            lemma_zero_entry();
            if old(self).table().contains_key(current_ppn) {
                assert(after2.table()[current_ppn] == old(self).table()[current_ppn]);
            }
        }
        let vpn1 = Self::extract_vpn(va, 1);
        current_ppn = self.next_table(current_ppn, vpn1, Ghost(1));
        let ghost after1 = *self;
        // Level 0: the leaf entry.
        let vpn0 = Self::extract_vpn(va, 0);
        let pte = (pa >> 12 << PPN_SHIFT) | flags | PTE_V;
        self.set_entry(current_ppn, vpn0, pte);
        proof {
            lemma_leaf_entry(pa, flags);
            let mid = pte_ppn(after1.table()[self.root_ppn].entries@[vpn2 as int]);
            assert(after1.table()[self.root_ppn] == after2.table()[self.root_ppn]);
            lemma_write_level0(after1.nodes@, after1.levels@, self.nodes@, self.root_ppn,
                self.next_ppn, va, mid, current_ppn, pte);
            assert forall|va2: u64|
                #[trigger] self.translation(va2) == if same_page(va, va2) {
                    leaf_result(leaf_entry(pa, flags), 0, va2)
                } else {
                    old(self).translation(va2)
                } by {
                assert(walk(self.nodes@, self.root_ppn, 2, va2) == if same_page(va, va2) {
                    leaf_result(pte, 0, va2)
                } else {
                    walk(after1.nodes@, self.root_ppn, 2, va2)
                });
                assert(after1.translation(va2) == after2.translation(va2));
                assert(after2.translation(va2) == old(self).translation(va2));
            }
            assert forall|va2: u64| #[trigger] self.superpage_covers(va2) == old(self).superpage_covers(va2) by {
                lemma_vpn_bound(va2, 2);
                lemma_vpn_bound(va2, 1);
                let r = self.root_ppn;
                let k2 = vpn_of(va2, 2) as int;
                let e2 = after1.table()[r].entries@[k2];
                assert(entry_ok(after1.table(), after1.levels@, r, k2));
                assert(entry_ok(after1.table(), after1.levels@, r, vpn2 as int));
                assert(entry_ok(after1.table(), after1.levels@, mid, vpn1 as int));
                assert(self.table()[r] == after1.table()[r]);
                if is_link(e2) {
                    let t = pte_ppn(e2);
                    assert(self.table()[t] == after1.table()[t]);
                }
                assert(after1.superpage_covers(va2) == after2.superpage_covers(va2));
                assert(after2.superpage_covers(va2) == old(self).superpage_covers(va2));
            }
        }
    }

    /// Map the 2 MiB region of `va` to the 2 MiB region at `pa` with a leaf
    /// entry on level 1: `((pa >> 12) << 10) | flags | PTE_V`.  Both
    /// addresses must be 2 MiB aligned and the flags must make the entry a
    /// leaf (R, W or X).
    ///
    /// Afterwards every address in that region translates through the new
    /// entry, and every other address translates as before.
    pub fn map_superpage(&mut self, va: u64, pa: u64, flags: u64)
        requires
            old(self).wf(),
            va % 0x20_0000 == 0,
            pa % 0x20_0000 == 0,
            flags & LEAF_FLAGS != 0,
            !is_valid(old(self).table()[old(self).root()].entries@[vpn_of(va, 2) as int])
                ==> old(self).next_free_ppn() < PPN_LIMIT,
        ensures
            final(self).wf(),
            final(self).root() == old(self).root(),
            final(self).next_free_ppn() == old(self).next_free_ppn() + if is_valid(
                old(self).table()[old(self).root()].entries@[vpn_of(va, 2) as int],
            ) {
                0nat
            } else {
                1nat
            },
            superpage_mapped(*old(self), *final(self), va, pa, flags),
            old(self).table().dom().subset_of(final(self).table().dom()),
            forall|va2: u64| #[trigger] final(self).superpage_covers(va2) == (same_superpage(va, va2)
                || old(self).superpage_covers(va2)),
    {
        let mut current_ppn = self.root_ppn;
        proof {
            lemma_vpn_bound(va, 2);
            assert(entry_ok(self.table(), self.levels@, current_ppn, vpn_of(va, 2) as int));
        }
        // Level 2: follow the entry, creating the level-1 node if absent.
        let vpn2 = Self::extract_vpn(va, 2);
        current_ppn = self.next_table(current_ppn, vpn2, Ghost(2));
        let ghost after2 = *self;
        // Level 1: the leaf entry.
        let vpn1 = Self::extract_vpn(va, 1);
        let pte = (pa >> 12 << PPN_SHIFT) | flags | PTE_V;
        self.set_entry(current_ppn, vpn1, pte);
        proof {
            lemma_leaf_entry(pa, flags);
            lemma_write_level1(after2.nodes@, after2.levels@, self.nodes@, self.root_ppn,
                self.next_ppn, va, current_ppn, pte);
            assert forall|va2: u64|
                #[trigger] self.translation(va2) == if same_superpage(va, va2) {
                    TranslateResult::Mapped(leaf_address(leaf_entry(pa, flags), 1, va2))
                } else {
                    old(self).translation(va2)
                } by {
                assert(walk(self.nodes@, self.root_ppn, 2, va2) == if same_superpage(va, va2) {
                    TranslateResult::Mapped(leaf_address(pte, 1, va2))
                } else {
                    walk(after2.nodes@, self.root_ppn, 2, va2)
                });
                assert(after2.translation(va2) == old(self).translation(va2));
            }
            assert forall|va2: u64| #[trigger] self.superpage_covers(va2) == (same_superpage(va, va2)
                || old(self).superpage_covers(va2)) by {
                lemma_vpn_bound(va2, 2);
                lemma_vpn_bound(va2, 1);
                let r = self.root_ppn;
                let k2 = vpn_of(va2, 2) as int;
                let k1 = vpn_of(va2, 1) as int;
                let e2 = after2.table()[r].entries@[k2];
                assert(entry_ok(after2.table(), after2.levels@, r, k2));
                assert(entry_ok(after2.table(), after2.levels@, r, vpn2 as int));
                assert(self.table()[r] == after2.table()[r]);
                assert(after2.superpage_covers(va2) == old(self).superpage_covers(va2));
                if is_link(e2) {
                    let t = pte_ppn(e2);
                    if t == current_ppn && k1 == vpn1 {
                        assert(is_table_link(after2.table(), after2.levels@, r, k2));
                        assert(is_table_link(after2.table(), after2.levels@, r, vpn2 as int));
                        assert(self.table()[t].entries@[k1] == pte);
                        assert(same_superpage(va, va2));
                    } else {
                        assert(self.table()[t].entries@[k1] == after2.table()[t].entries@[k1]);
                        if same_superpage(va, va2) {
                            assert(t == current_ppn);
                        }
                    }
                }
            }
        }
    }

    /// Translate a virtual address by walking the three levels from the
    /// root: an absent entry faults; an entry with R, W or X set maps the
    /// address (a leaf on level 1 maps a 2 MiB page); any other entry leads
    /// to the next level, and on level 0 it faults.
    pub fn translate(&self, va: u64) -> (r: TranslateResult)
        requires
            self.wf(),
        ensures
            r == self.translation(va),
    {
        let mut current_ppn = self.root_ppn;
        let mut level: usize = 2;
        loop
            invariant
                self.wf(),
                level <= 2,
                self.table().contains_key(current_ppn),
                self.levels@[current_ppn] == level,
                walk(self.table(), current_ppn, level as nat, va) == self.translation(va),
            decreases level,
        {
            let vpn = Self::extract_vpn(va, level);
            let node = self.get_node(current_ppn);
            let pte = node.entries[vpn];
            if (pte & PTE_V) == 0 {
                return TranslateResult::PageFault;
            }
            if (pte & (PTE_R | PTE_W | PTE_X)) != 0 {
                let shift: u64 = (12 + level * 9) as u64;
                assert(1u64 << shift >= 1) by (bit_vector)
                    requires
                        shift < 64,
                ;
                let offset_mask: u64 = (1u64 << shift) - 1;
                proof {
                    assert(2u64 | 4u64 | 8u64 == LEAF_FLAGS) by (bit_vector);
                    let ghost expected = offset_mask_of(level as nat);
                    assert(offset_mask == expected) by (bit_vector)
                        requires
                            offset_mask == (1u64 << shift) - 1,
                            (shift == 12 && expected == 0xFFFu64) || (shift == 21 && expected
                                == 0x1F_FFFFu64) || (shift == 30 && expected == 0x3FFF_FFFFu64),
                    ;
                }
                let pa = (pte >> PPN_SHIFT << 12) | (va & offset_mask);
                return TranslateResult::Mapped(pa);
            }
            proof {
                assert(2u64 | 4u64 | 8u64 == LEAF_FLAGS) by (bit_vector);
            }
            if level == 0 {
                return TranslateResult::PageFault;
            }
            proof {
                assert(entry_ok(self.table(), self.levels@, current_ppn, vpn as int));
            }
            current_ppn = pte >> PPN_SHIFT;
            level -= 1;
        }
    }
}

impl Default for Sv39PageTable {
    /// The same empty table as `new`.
    fn default() -> (pt: Self)
        ensures
            pt.wf(),
            pt.root() == 0x80000,
            pt.next_free_ppn() == 0x80001,
            pt.table().dom() == set![0x80000u64],
            forall|i: int| 0 <= i < PT_ENTRIES ==> #[trigger] pt.table()[0x80000].entries@[i] == 0,
            forall|va: u64| #[trigger] pt.translation(va) == TranslateResult::PageFault,
            forall|va: u64| !#[trigger] pt.superpage_covers(va),
    {
        Self::new()
    }
}

} // verus!
