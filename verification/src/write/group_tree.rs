//! The B-tree over the symbol table nodes of a group.
//!
//! A node lists up to 32 children. The tree grows a level whenever one node's children
//! run out: each node comes first, and then the trees below it, one after the other. The
//! symbol table nodes lie one behind the other, and a key is the greatest name of a child.

use vstd::prelude::*;
use vstd::slice::slice_subrange;
use crate::bytes::{le_bytes, lemma_le_bytes_len, push_all, push_le};
use crate::write::format::{key_values, leaf_node_bytes, leaf_node_image, lemma_leaf_node_len};

verus! {

/// The most symbol table nodes of a group: those of a tree of four levels.
pub const MAX_NODES: usize = 1048576;

/// How many symbol table nodes an entry of a node of that level stands for at most.
pub open spec fn share(level: nat) -> nat
    decreases level,
{
    if level == 0 {
        1
    } else {
        32 * share((level - 1) as nat)
    }
}

/// How many of `n` symbol table nodes come before those of the last entry of a node of
/// that level.
pub open spec fn ahead(level: nat, n: nat) -> nat {
    if n == 0 {
        0
    } else {
        ((n - 1) / share(level) as int * share(level)) as nat
    }
}

/// How many entries a node of that level has for `n` symbol table nodes.
pub open spec fn entry_count(level: nat, n: nat) -> nat {
    if n == 0 {
        0
    } else {
        ((n - 1) / share(level) as int + 1) as nat
    }
}

/// The bytes of a tree of that level over `n` symbol table nodes.
pub open spec fn tree_len(level: nat, n: nat) -> nat
    decreases level, n + 1,
{
    if level == 0 {
        32 + 16 * n
    } else {
        32 + 16 * entry_count(level, n) + below_len(level, n)
    }
}

/// The bytes of the trees below a node of that level.
pub open spec fn below_len(level: nat, n: nat) -> nat
    decreases level, n,
{
    if n == 0 || level == 0 || ahead(level, n) >= n {
        0
    } else {
        below_len(level, ahead(level, n)) + tree_len(
            (level - 1) as nat,
            (n - ahead(level, n)) as nat,
        )
    }
}

/// The addresses and the greatest keys of the trees below a node of that level, the first
/// of them at `at`.
pub open spec fn branches(level: nat, keys: Seq<nat>, at: nat) -> Seq<(nat, nat)>
    decreases keys.len(),
{
    let cut = ahead(level, keys.len());
    if keys.len() == 0 || level == 0 || cut >= keys.len() {
        Seq::empty()
    } else {
        branches(level, keys.take(cut as int), at).push((at + below_len(level, cut), keys.last()))
    }
}

/// Addresses and keys.
pub open spec fn branches_image(branches: Seq<(nat, nat)>) -> Seq<u8>
    decreases branches.len(),
{
    if branches.len() == 0 {
        Seq::empty()
    } else {
        branches_image(branches.drop_last()) + le_bytes(branches.last().0, 8) + le_bytes(
            branches.last().1,
            8,
        )
    }
}

/// A node above the leaves: `TREE`, type 0, its level, the number of entries, no siblings,
/// a zero key, and then the address and the greatest key of each child.
pub open spec fn branch_image(level: nat, branches: Seq<(nat, nat)>) -> Seq<u8> {
    seq!['T' as u8, 'R' as u8, 'E' as u8, 'E' as u8, 0u8, level as u8] + le_bytes(
        branches.len(),
        2,
    ) + le_bytes(u64::MAX as nat, 8) + le_bytes(u64::MAX as nat, 8) + le_bytes(0, 8)
        + branches_image(branches)
}

/// A tree of that level, placed at `at`, over symbol table nodes with these greatest keys,
/// the first of them at `snod`.
pub open spec fn tree_image(level: nat, at: nat, snod: nat, keys: Seq<nat>) -> Seq<u8>
    decreases level, keys.len() + 1,
{
    if level == 0 {
        leaf_node_image(snod, keys)
    } else {
        let first = at + 32 + 16 * entry_count(level, keys.len());
        branch_image(level, branches(level, keys, first)) + below_image(level, first, snod, keys)
    }
}

/// The trees below a node of that level, one after the other from `at` on.
pub open spec fn below_image(level: nat, at: nat, snod: nat, keys: Seq<nat>) -> Seq<u8>
    decreases level, keys.len(),
{
    let cut = ahead(level, keys.len());
    if keys.len() == 0 || level == 0 || cut >= keys.len() {
        Seq::empty()
    } else {
        below_image(level, at, snod, keys.take(cut as int)) + tree_image(
            (level - 1) as nat,
            at + below_len(level, cut),
            snod + 328 * cut,
            keys.skip(cut as int),
        )
    }
}

/// The level of the tree over `n` symbol table nodes.
pub open spec fn level_of(n: nat) -> nat {
    if n <= 32 {
        0
    } else if n <= 1024 {
        1
    } else if n <= 32768 {
        2
    } else {
        3
    }
}

/// The bytes of the tree over `n` symbol table nodes, as far as there is one.
#[verifier::opaque]
pub open spec fn group_tree_len(n: nat) -> nat {
    if n > MAX_NODES {
        0
    } else {
        tree_len(level_of(n), n)
    }
}

/// The tree over the symbol table nodes of a group.
#[verifier::opaque]
pub open spec fn group_tree_image(at: nat, snod: nat, keys: Seq<nat>) -> Seq<u8> {
    tree_image(level_of(keys.len()), at, snod, keys)
}

pub proof fn lemma_shares()
    ensures
        share(0) == 1,
        share(1) == 32,
        share(2) == 1024,
        share(3) == 32768,
        share(4) == MAX_NODES,
{
    reveal_with_fuel(share, 5);
}

pub proof fn lemma_share_positive(level: nat)
    ensures
        share(level) > 0,
    decreases level,
{
    if level > 0 {
        lemma_share_positive((level - 1) as nat);
    }
}

/// The last entry of a node stands for at least one symbol table node, and for no more
/// than a full share; there is one entry more than before it.
pub proof fn lemma_ahead(level: nat, n: nat)
    requires
        n > 0,
    ensures
        ahead(level, n) < n,
        n - ahead(level, n) <= share(level),
        entry_count(level, n) == entry_count(level, ahead(level, n)) + 1,
        entry_count(level, n) <= n,
        n <= 32 * share(level) ==> entry_count(level, n) <= 32,
{
    lemma_share_positive(level);
    let w = share(level) as int;
    let q = (n - 1) / w;
    let cut = ahead(level, n);
    vstd::arithmetic::div_mod::lemma_fundamental_div_mod(n - 1, w);
    vstd::arithmetic::div_mod::lemma_div_pos_is_pos(n - 1, w);
    assert(w * q == q * w) by (nonlinear_arith);
    assert(q <= n - 1) by (nonlinear_arith)
        requires
            n - 1 == w * q + (n - 1) % w,
            0 <= (n - 1) % w,
            0 <= q,
            w >= 1,
    ;
    if cut > 0 {
        assert(q * w - 1 == w * (q - 1) + (w - 1)) by (nonlinear_arith);
        vstd::arithmetic::div_mod::lemma_fundamental_div_mod_converse(cut - 1, w, q - 1, w - 1);
    } else {
        assert(q == 0) by (nonlinear_arith)
            requires
                q * w == 0,
                w > 0,
        ;
    }
    if n <= 32 * w {
        assert(q <= 31) by (nonlinear_arith)
            requires
                n - 1 == w * q + (n - 1) % w,
                0 <= (n - 1) % w,
                n - 1 < 32 * w,
                w > 0,
        ;
    }
}

/// A tree is a multiple of 8 bytes and not much longer than its symbol table nodes.
proof fn lemma_tree_len_bounds(level: nat, n: nat)
    ensures
        tree_len(level, n) % 8 == 0,
        32 <= tree_len(level, n) <= 48 * ((level + 1) * n) + 32,
        n > 0 ==> tree_len(level, n) <= 48 * ((level + 1) * n),
    decreases level, n + 1,
{
    assert(n > 0 ==> n <= (level + 1) * n) by (nonlinear_arith);
    if level > 0 {
        lemma_below_len_bounds(level, n);
        if n > 0 {
            lemma_ahead(level, n);
        }
        assert((level + 1) * n == level * n + n) by (nonlinear_arith);
    }
}

proof fn lemma_below_len_bounds(level: nat, n: nat)
    requires
        level > 0,
    ensures
        below_len(level, n) % 8 == 0,
        below_len(level, n) <= 48 * (level * n),
    decreases level, n,
{
    assert(level * n >= 0) by (nonlinear_arith);
    if n > 0 {
        let cut = ahead(level, n);
        lemma_ahead(level, n);
        lemma_below_len_bounds(level, cut);
        lemma_tree_len_bounds((level - 1) as nat, (n - cut) as nat);
        assert(level * cut + (level - 1 + 1) * (n - cut) == level * n) by (nonlinear_arith);
    }
}

pub proof fn lemma_group_tree_len(n: nat)
    ensures
        group_tree_len(n) % 8 == 0,
        group_tree_len(n) <= 48 * (4 * n) + 32,
{
    reveal(group_tree_len);
    let level = level_of(n);
    lemma_tree_len_bounds(level, n);
    assert((level + 1) * n <= 4 * n) by (nonlinear_arith)
        requires
            level <= 3,
    ;
}

pub proof fn lemma_branches_len(branches: Seq<(nat, nat)>)
    ensures
        branches_image(branches).len() == branches.len() * 16,
    decreases branches.len(),
{
    if branches.len() > 0 {
        lemma_branches_len(branches.drop_last());
        lemma_le_bytes_len(branches.last().0, 8);
        lemma_le_bytes_len(branches.last().1, 8);
    }
}

pub proof fn lemma_branches(level: nat, keys: Seq<nat>, at: nat)
    requires
        level > 0,
    ensures
        branches(level, keys, at).len() == entry_count(level, keys.len()),
    decreases keys.len(),
{
    if keys.len() > 0 {
        lemma_ahead(level, keys.len());
        lemma_branches(level, keys.take(ahead(level, keys.len()) as int), at);
    }
}

pub proof fn lemma_branch_len(level: nat, branches: Seq<(nat, nat)>)
    ensures
        branch_image(level, branches).len() == 32 + 16 * branches.len(),
{
    lemma_branches_len(branches);
    lemma_le_bytes_len(branches.len(), 2);
    lemma_le_bytes_len(u64::MAX as nat, 8);
    lemma_le_bytes_len(0, 8);
}

pub proof fn lemma_tree_image_len(level: nat, at: nat, snod: nat, keys: Seq<nat>)
    ensures
        tree_image(level, at, snod, keys).len() == tree_len(level, keys.len()),
    decreases level, keys.len() + 1,
{
    if level == 0 {
        lemma_leaf_node_len(snod, keys);
    } else {
        let first = at + 32 + 16 * entry_count(level, keys.len());
        lemma_branches(level, keys, first);
        lemma_branch_len(level, branches(level, keys, first));
        lemma_below_image_len(level, first, snod, keys);
    }
}

pub proof fn lemma_below_image_len(level: nat, at: nat, snod: nat, keys: Seq<nat>)
    requires
        level > 0,
    ensures
        below_image(level, at, snod, keys).len() == below_len(level, keys.len()),
    decreases level, keys.len(),
{
    if keys.len() > 0 {
        let cut = ahead(level, keys.len());
        lemma_ahead(level, keys.len());
        lemma_below_image_len(level, at, snod, keys.take(cut as int));
        lemma_tree_image_len(
            (level - 1) as nat,
            at + below_len(level, cut),
            snod + 328 * cut,
            keys.skip(cut as int),
        );
    }
}

/// The tree of a group takes as many bytes as are set aside for it.
pub proof fn law_group_tree_len(at: nat, snod: nat, keys: Seq<nat>)
    requires
        keys.len() <= MAX_NODES,
    ensures
        group_tree_image(at, snod, keys).len() == group_tree_len(keys.len()),
{
    reveal(group_tree_len);
    reveal(group_tree_image);
    lemma_tree_image_len(level_of(keys.len()), at, snod, keys);
}

fn share_at(level: usize) -> (r: usize)
    requires
        level <= 3,
    ensures
        r == share(level as nat),
        r > 0,
{
    proof {
        lemma_shares();
    }
    if level == 0 {
        1
    } else if level == 1 {
        32
    } else if level == 2 {
        1024
    } else {
        32768
    }
}

fn count_ahead(level: usize, n: usize) -> (r: usize)
    requires
        level <= 3,
        n > 0,
    ensures
        r == ahead(level as nat, n as nat),
        r < n,
{
    let w: usize = share_at(level);
    proof {
        lemma_ahead(level as nat, n as nat);
        vstd::arithmetic::div_mod::lemma_div_pos_is_pos(n - 1, w as int);
    }
    (n - 1) / w * w
}

fn count_entries(level: usize, n: usize) -> (r: usize)
    requires
        level <= 3,
        n <= MAX_NODES,
    ensures
        r == entry_count(level as nat, n as nat),
        r <= n,
{
    if n == 0 {
        return 0;
    }
    let w: usize = share_at(level);
    proof {
        lemma_ahead(level as nat, n as nat);
        vstd::arithmetic::div_mod::lemma_div_pos_is_pos(n - 1, w as int);
    }
    (n - 1) / w + 1
}

fn tree_size(level: usize, n: usize) -> (r: usize)
    requires
        level <= 3,
        n <= MAX_NODES,
    ensures
        r == tree_len(level as nat, n as nat),
    decreases level, n + 1,
{
    proof {
        lemma_tree_len_bounds(level as nat, n as nat);
        assert((level + 1) * n <= 4 * n) by (nonlinear_arith)
            requires
                level <= 3,
        ;
    }
    if level == 0 {
        32 + 16 * n
    } else {
        32 + 16 * count_entries(level, n) + below_size(level, n)
    }
}

fn below_size(level: usize, n: usize) -> (r: usize)
    requires
        1 <= level <= 3,
        n <= MAX_NODES,
    ensures
        r == below_len(level as nat, n as nat),
        r <= 144 * n,
    decreases level, n,
{
    if n == 0 {
        return 0;
    }
    let cut: usize = count_ahead(level, n);
    proof {
        lemma_below_len_bounds(level as nat, n as nat);
        assert(level * n <= 3 * n) by (nonlinear_arith)
            requires
                level <= 3,
        ;
    }
    below_size(level, cut) + tree_size(level - 1, n - cut)
}

fn level_for(n: usize) -> (r: usize)
    ensures
        r == level_of(n as nat),
{
    if n <= 32 {
        0
    } else if n <= 1024 {
        1
    } else if n <= 32768 {
        2
    } else {
        3
    }
}

/// The bytes of the tree over `n` symbol table nodes, as far as there is one.
pub fn group_tree_size(n: usize) -> (r: usize)
    ensures
        r == group_tree_len(n as nat),
{
    proof {
        reveal(group_tree_len);
    }
    if n > MAX_NODES {
        0
    } else {
        tree_size(level_for(n), n)
    }
}

/// Addresses and keys as mathematical values.
spec fn pairs(branches: Seq<(u64, u64)>) -> Seq<(nat, nat)> {
    Seq::new(branches.len(), |i: int| (branches[i].0 as nat, branches[i].1 as nat))
}

fn push_branch(out: &mut Vec<u8>, level: usize, branches: &[(u64, u64)])
    requires
        level <= 3,
        branches@.len() <= u16::MAX,
    ensures
        final(out)@ == old(out)@ + branch_image(level as nat, pairs(branches@)),
{
    let ghost before = out@;
    let ghost all = pairs(branches@);
    let tag: Vec<u8> = vec![0x54u8, 0x52, 0x45, 0x45, 0, level as u8];
    proof {
        assert('T' as u8 == 0x54 && 'R' as u8 == 0x52 && 'E' as u8 == 0x45);
        assert(tag@ =~= seq!['T' as u8, 'R' as u8, 'E' as u8, 'E' as u8, 0u8, level as u8]);
    }
    push_all(out, &tag);
    push_le(out, branches.len() as u64, 2);
    push_le(out, u64::MAX, 8);
    push_le(out, u64::MAX, 8);
    push_le(out, 0, 8);
    let ghost head = out@;
    proof {
        assert(all.take(0) =~= Seq::<(nat, nat)>::empty());
        assert(out@ =~= head + branches_image(all.take(0)));
    }
    for i in 0..branches.len()
        invariant
            all == pairs(branches@),
            out@ == head + branches_image(all.take(i as int)),
    {
        push_le(out, branches[i].0, 8);
        push_le(out, branches[i].1, 8);
        proof {
            assert(all.take(i + 1).drop_last() =~= all.take(i as int));
            assert(out@ =~= head + branches_image(all.take(i + 1)));
        }
    }
    proof {
        assert(all.take(branches@.len() as int) =~= all);
        assert(out@ =~= before + branch_image(level as nat, all));
    }
}

fn list_branches(out: &mut Vec<(u64, u64)>, level: usize, keys: &[u64], at: u64)
    requires
        1 <= level <= 3,
        keys@.len() <= MAX_NODES,
        at + below_len(level as nat, keys@.len()) <= u64::MAX,
    ensures
        pairs(final(out)@) == pairs(old(out)@) + branches(
            level as nat,
            key_values(keys@),
            at as nat,
        ),
    decreases keys@.len(),
{
    let ghost before = pairs(out@);
    let ghost all = key_values(keys@);
    let n: usize = keys.len();
    if n == 0 {
        proof {
            assert(pairs(out@) =~= before + Seq::<(nat, nat)>::empty());
        }
        return;
    }
    let cut: usize = count_ahead(level, n);
    let front: &[u64] = slice_subrange(keys, 0, cut);
    proof {
        lemma_ahead(level as nat, n as nat);
        assert(key_values(front@) =~= all.take(cut as int));
    }
    list_branches(out, level, front, at);
    let place: u64 = at + below_size(level, cut) as u64;
    let ghost listed = pairs(out@);
    out.push((place, keys[n - 1]));
    proof {
        assert(pairs(out@) =~= listed.push((place as nat, all.last())));
        assert(pairs(out@) =~= before + branches(level as nat, all, at as nat));
    }
}

fn push_tree(out: &mut Vec<u8>, level: usize, at: u64, snod: u64, keys: &[u64])
    requires
        level <= 3,
        keys@.len() <= MAX_NODES,
        keys@.len() <= 32 * share(level as nat),
        at + tree_len(level as nat, keys@.len()) <= u64::MAX,
        snod + 328 * keys@.len() <= u64::MAX,
    ensures
        final(out)@ == old(out)@ + tree_image(
            level as nat,
            at as nat,
            snod as nat,
            key_values(keys@),
        ),
    decreases level, keys@.len() + 1,
{
    let ghost before = out@;
    let ghost all = key_values(keys@);
    if level == 0 {
        proof {
            lemma_shares();
        }
        push_all(out, &leaf_node_bytes(snod, keys));
    } else {
        let entries: usize = count_entries(level, keys.len());
        let first: u64 = at + 32 + 16 * entries as u64;
        let mut listed: Vec<(u64, u64)> = Vec::new();
        list_branches(&mut listed, level, keys, first);
        proof {
            lemma_branches(level as nat, all, first as nat);
            if keys@.len() > 0 {
                lemma_ahead(level as nat, keys@.len());
            }
            assert(pairs(listed@) =~= branches(level as nat, all, first as nat));
            assert(listed@.len() == pairs(listed@).len());
        }
        push_branch(out, level, &listed);
        push_below(out, level, first, snod, keys);
        proof {
            assert(out@ =~= before + tree_image(level as nat, at as nat, snod as nat, all));
        }
    }
}

fn push_below(out: &mut Vec<u8>, level: usize, at: u64, snod: u64, keys: &[u64])
    requires
        1 <= level <= 3,
        keys@.len() <= MAX_NODES,
        at + below_len(level as nat, keys@.len()) <= u64::MAX,
        snod + 328 * keys@.len() <= u64::MAX,
    ensures
        final(out)@ == old(out)@ + below_image(
            level as nat,
            at as nat,
            snod as nat,
            key_values(keys@),
        ),
    decreases level, keys@.len(),
{
    let ghost before = out@;
    let ghost all = key_values(keys@);
    let n: usize = keys.len();
    if n == 0 {
        proof {
            assert(out@ =~= before + Seq::<u8>::empty());
        }
        return;
    }
    let cut: usize = count_ahead(level, n);
    let front: &[u64] = slice_subrange(keys, 0, cut);
    let rest: &[u64] = slice_subrange(keys, cut, n);
    proof {
        lemma_ahead(level as nat, n as nat);
        assert(key_values(front@) =~= all.take(cut as int));
        assert(key_values(rest@) =~= all.skip(cut as int));
    }
    push_below(out, level, at, snod, front);
    let place: u64 = at + below_size(level, cut) as u64;
    push_tree(out, level - 1, place, snod + 328 * cut as u64, rest);
    proof {
        assert(out@ =~= before + below_image(level as nat, at as nat, snod as nat, all));
    }
}

/// The tree, placed at `at`, over symbol table nodes with these greatest keys, the first
/// of them at `snod`.
pub fn group_tree_bytes(at: u64, snod: u64, keys: &[u64]) -> (r: Vec<u8>)
    requires
        keys@.len() <= MAX_NODES,
        at + group_tree_len(keys@.len()) <= u64::MAX,
        snod + 328 * keys@.len() <= u64::MAX,
    ensures
        r@ == group_tree_image(at as nat, snod as nat, key_values(keys@)),
{
    proof {
        reveal(group_tree_len);
        reveal(group_tree_image);
        lemma_shares();
    }
    let mut out: Vec<u8> = Vec::new();
    push_tree(&mut out, level_for(keys.len()), at, snod, keys);
    proof {
        assert(out@ =~= group_tree_image(at as nat, snod as nat, key_values(keys@)));
    }
    out
}

} // verus!
