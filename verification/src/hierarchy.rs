//! The containment forest: network ranges with their measurement data,
//! grouped so that more-specific ranges hang below their covering range.

use vstd::prelude::*;
use vstd::pervasive::VecAdditionalExecFns;
use crate::range::NetworkRange;
use crate::weight::{growth_weight, pow_sat};

verus! {

/// One measured address: the address itself and an opaque metadata value
/// (a TTL, an MSS, a CSV column).
#[derive(Clone, Copy, Debug, PartialEq, Eq, Hash, Structural)]
pub struct DataPoint {
    pub ip6: u128,
    pub meta: u32,
}

/// Number of one bits in `x`, counting `n` low-order binary digits.
pub open spec fn popcount_rec(x: u128, n: nat) -> nat
    decreases n,
{
    if n == 0 {
        0
    } else {
        (x % 2) as nat + popcount_rec(x / 2, (n - 1) as nat)
    }
}

/// Number of one bits in a 128-bit value.
pub open spec fn popcount(x: u128) -> nat {
    popcount_rec(x, 128)
}

/// Count the one bits of a 128-bit value.
pub fn popcount128(x0: u128) -> (c: u32)
    ensures
        c as nat == popcount(x0),
{
    let mut x: u128 = x0;
    let mut c: u32 = 0;
    let mut i: u32 = 0;
    while i < 128
        invariant
            i <= 128,
            c <= i,
            c as nat + popcount_rec(x, (128 - i) as nat) == popcount(x0),
        decreases 128 - i,
    {
        proof {
            assert((x & 1) == x % 2) by (bit_vector);
            assert((x >> 1) == x / 2) by (bit_vector);
            assert(x % 2 < 2);
        }
        c = c + (x & 1) as u32;
        x = x >> 1;
        i = i + 1;
    }
    c
}

/// The TTL bucketed up to the nearest common initial value.
pub open spec fn ttl_start_value(m: u32) -> u32 {
    if m <= 31 {
        32
    } else if m <= 63 {
        64
    } else if m <= 127 {
        128
    } else if m <= 255 {
        255
    } else {
        m
    }
}

/// The inferred hop count from an observed TTL.
pub open spec fn ttl_path_length(m: u32) -> u32 {
    let m1 = if m > 128 {
        (m - 1) as u32
    } else {
        m
    };
    (64 - (m1 % 64)) as u32
}

impl DataPoint {
    /// Ones count of the address bits below the given prefix length.
    pub fn hamming_weight(&self, prefix_len: u8) -> (r: u32)
        requires
            prefix_len < 128,
        ensures
            r as nat == popcount((self.ip6 << (prefix_len as u128)) >> (prefix_len as u128)),
    {
        popcount128((self.ip6 << (prefix_len as u128)) >> (prefix_len as u128))
    }

    /// Ones count of the interface-identifier half of the address.
    pub fn hamming_weight_iid(&self) -> (r: u32)
        ensures
            r as nat == popcount((self.ip6 << 64u128) >> 64u128),
    {
        self.hamming_weight(64)
    }

    /// Replace the observed TTL by the nearest common initial TTL.
    pub fn ttl_to_start_value(&mut self)
        ensures
            final(self).ip6 == old(self).ip6,
            final(self).meta == ttl_start_value(old(self).meta),
    {
        self.meta = if self.meta <= 31 {
            32
        } else if self.meta <= 63 {
            64
        } else if self.meta <= 127 {
            128
        } else if self.meta <= 255 {
            255
        } else {
            self.meta
        };
    }

    /// Replace the observed TTL by the inferred hop count.
    pub fn ttl_to_path_length(&mut self)
        ensures
            final(self).ip6 == old(self).ip6,
            final(self).meta == ttl_path_length(old(self).meta),
    {
        if self.meta > 128 {
            self.meta = self.meta - 1;
        }
        self.meta = 64 - (self.meta % 64);
    }
}

/// A network range, the identifier of its announcing party, the measured
/// addresses that fall into it, and the more-specific ranges below it.
#[derive(Debug)]
pub struct Specific {
    pub network: NetworkRange,
    pub asn: String,
    pub datapoints: Vec<DataPoint>,
    pub specifics: Vec<Specific>,
}

/// What identifies a forest entry apart from its place in the hierarchy.
pub open spec fn entry_of(s: Specific) -> (NetworkRange, Seq<char>, Seq<DataPoint>) {
    (s.network, s.asn@, s.datapoints@)
}

/// Number of nodes of a subtree, the root included.
pub open spec fn node_count(s: Specific) -> nat
    decreases s,
{
    1 + forest_count(s.specifics@)
}

/// Number of nodes of a forest, counted recursively.
pub open spec fn forest_count(f: Seq<Specific>) -> nat
    decreases f,
{
    if f.len() == 0 {
        0
    } else {
        node_count(f[0]) + forest_count(f.drop_first())
    }
}

/// The entries of a forest in preorder: each root before its descendants,
/// siblings left to right.
pub open spec fn preorder(f: Seq<Specific>) -> Seq<(NetworkRange, Seq<char>, Seq<DataPoint>)>
    decreases f,
{
    if f.len() == 0 {
        Seq::empty()
    } else {
        seq![entry_of(f[0])] + preorder(f[0].specifics@) + preorder(f.drop_first())
    }
}

/// The entries of a sequence of nodes, children ignored.
pub open spec fn entries(f: Seq<Specific>) -> Seq<(NetworkRange, Seq<char>, Seq<DataPoint>)>
    decreases f,
{
    if f.len() == 0 {
        Seq::empty()
    } else {
        seq![entry_of(f[0])] + entries(f.drop_first())
    }
}

/// All nodes of the sequence are childless.
pub open spec fn all_leaves(f: Seq<Specific>) -> bool {
    forall|i: int| 0 <= i < f.len() ==> (#[trigger] f[i]).specifics@.len() == 0
}

/// All network ranges of the sequence are well formed.
pub open spec fn ranges_wf(f: Seq<Specific>) -> bool {
    forall|i: int| 0 <= i < f.len() ==> (#[trigger] f[i]).network.wf()
}

/// The sortedness precondition of the hierarchy builder, stated over the
/// input order: whatever lies inside a range follows it as one contiguous
/// run. Three consequences of such an order are used:
/// a covering base address means full range containment; runs of covered
/// entries are contiguous; and no entry contains an earlier one.
pub open spec fn hier_input_ok(f: Seq<Specific>) -> bool {
    (forall|i: int, j: int|
        0 <= i < j < f.len() && (#[trigger] f[i]).network.covers((#[trigger] f[j]).network.base)
            ==> f[i].network.covers_range(f[j].network)) && (forall|i: int, j: int, k: int|
        0 <= i < j < k < f.len() && (#[trigger] f[i]).network.covers((#[trigger] f[k]).network.base)
            ==> f[i].network.covers((#[trigger] f[j]).network.base)) && (forall|i: int, j: int|
        0 <= i < j < f.len() ==> !(#[trigger] f[j]).network.covers_range(
            (#[trigger] f[i]).network,
        ))
}

/// No member of the sequence contains another: their address ranges are
/// pairwise disjoint.
pub open spec fn siblings_disjoint(f: Seq<Specific>) -> bool {
    forall|i: int, j: int|
        0 <= i < j < f.len() ==> !(#[trigger] f[i]).network.covers_range(
            (#[trigger] f[j]).network,
        ) && !f[j].network.covers_range(f[i].network)
}

/// The containment invariant at one node, recursively: every child's range
/// lies inside the node's range, and the children are pairwise disjoint.
pub open spec fn node_ok(s: Specific) -> bool
    decreases s,
{
    (forall|i: int|
        0 <= i < s.specifics@.len() ==> s.network.covers_range(
            (#[trigger] s.specifics@[i]).network,
        )) && siblings_disjoint(s.specifics@) && (forall|i: int|
        0 <= i < s.specifics@.len() ==> node_ok(#[trigger] s.specifics@[i]))
}

/// The containment invariant over a whole forest.
pub open spec fn forest_ok(f: Seq<Specific>) -> bool {
    siblings_disjoint(f) && (forall|i: int| 0 <= i < f.len() ==> node_ok(#[trigger] f[i]))
}

/// The builder precondition restricts to any contiguous part of the input.
proof fn lemma_input_ok_subrange(f: Seq<Specific>, lo: int, hi: int)
    requires
        hier_input_ok(f),
        0 <= lo <= hi <= f.len(),
    ensures
        hier_input_ok(f.subrange(lo, hi)),
{
    let g = f.subrange(lo, hi);
    assert forall|i: int, j: int|
        0 <= i < j < g.len() && (#[trigger] g[i]).network.covers(
            (#[trigger] g[j]).network.base,
        ) implies g[i].network.covers_range(g[j].network) by {
        assert(g[i] == f[lo + i] && g[j] == f[lo + j]);
    }
    assert forall|i: int, j: int, k: int|
        0 <= i < j < k < g.len() && (#[trigger] g[i]).network.covers(
            (#[trigger] g[k]).network.base,
        ) implies g[i].network.covers((#[trigger] g[j]).network.base) by {
        assert(g[i] == f[lo + i] && g[j] == f[lo + j] && g[k] == f[lo + k]);
    }
    assert forall|i: int, j: int| 0 <= i < j < g.len() implies !(#[trigger] g[j]).network.covers_range(
        (#[trigger] g[i]).network,
    ) by {
        assert(g[i] == f[lo + i] && g[j] == f[lo + j]);
    }
}

/// Each entry of a node sequence is the entry of the node at that index.
proof fn lemma_entries_index(f: Seq<Specific>, i: int)
    requires
        0 <= i < f.len(),
    ensures
        entries(f).len() == f.len(),
        entries(f)[i] == entry_of(f[i]),
    decreases f.len(),
{
    lemma_entries_len(f);
    if i > 0 {
        lemma_entries_index(f.drop_first(), i - 1);
    }
}

/// A top-level node's entry occurs in the forest's preorder.
proof fn lemma_top_entry_in_preorder(f: Seq<Specific>, i: int)
    requires
        0 <= i < f.len(),
    ensures
        preorder(f).contains(entry_of(f[i])),
    decreases f.len(),
{
    if i == 0 {
        assert(preorder(f)[0] == entry_of(f[0]));
    } else {
        lemma_top_entry_in_preorder(f.drop_first(), i - 1);
        let tailp = preorder(f.drop_first());
        let j = choose|j: int| 0 <= j < tailp.len() && tailp[j] == entry_of(f.drop_first()[i - 1]);
        let head = seq![entry_of(f[0])] + preorder(f[0].specifics@);
        assert(preorder(f) == head + tailp);
        assert(preorder(f)[head.len() + j] == entry_of(f[i]));
    }
}

/// Every top-level node of a forest whose preorder lists the entries of
/// `src` carries the network of some member of `src`.
proof fn lemma_top_network_from(f: Seq<Specific>, src: Seq<Specific>, i: int) -> (j: int)
    requires
        0 <= i < f.len(),
        preorder(f) == entries(src),
    ensures
        0 <= j < src.len(),
        f[i].network == src[j].network,
{
    lemma_top_entry_in_preorder(f, i);
    lemma_entries_len(src);
    let k = choose|k: int|
        0 <= k < entries(src).len() && entries(src)[k] == entry_of(f[i]);
    lemma_entries_index(src, k);
    k
}

pub proof fn lemma_entries_len(f: Seq<Specific>)
    ensures
        entries(f).len() == f.len(),
    decreases f.len(),
{
    if f.len() > 0 {
        lemma_entries_len(f.drop_first());
    }
}

pub proof fn lemma_entries_append(a: Seq<Specific>, b: Seq<Specific>)
    ensures
        entries(a + b) == entries(a) + entries(b),
    decreases a.len(),
{
    if a.len() == 0 {
        assert(a + b =~= b);
        assert(entries(a) + entries(b) =~= entries(b));
    } else {
        assert((a + b).drop_first() =~= a.drop_first() + b);
        lemma_entries_append(a.drop_first(), b);
        assert(entries(a + b) =~= entries(a) + entries(b));
    }
}

/// On childless nodes, preorder and entries coincide.
pub proof fn lemma_preorder_of_leaves(f: Seq<Specific>)
    requires
        all_leaves(f),
    ensures
        preorder(f) == entries(f),
    decreases f.len(),
{
    if f.len() > 0 {
        assert(all_leaves(f.drop_first()));
        lemma_preorder_of_leaves(f.drop_first());
        assert(preorder(f[0].specifics@) =~= Seq::<(NetworkRange, Seq<char>, Seq<DataPoint>)>::empty());
        assert(preorder(f) =~= entries(f));
    }
}

/// A forest has as many nodes as its preorder has entries.
pub proof fn lemma_forest_count_is_preorder_len(f: Seq<Specific>)
    ensures
        forest_count(f) == preorder(f).len(),
    decreases f,
{
    if f.len() > 0 {
        lemma_forest_count_is_preorder_len(f[0].specifics@);
        lemma_forest_count_is_preorder_len(f.drop_first());
        assert(node_count(f[0]) == 1 + forest_count(f[0].specifics@));
        assert(preorder(f).len() == 1 + preorder(f[0].specifics@).len() + preorder(
            f.drop_first(),
        ).len());
    }
}

/// Measured addresses directly inside a node, descendants not counted.
pub open spec fn own_hits(s: Specific) -> nat {
    s.datapoints@.len()
}

/// Measured addresses in a whole subtree: the node's own plus, recursively,
/// all of its descendants'. This is the aggregate metric of a node.
pub open spec fn subtree_hits(s: Specific) -> nat
    decreases s,
{
    own_hits(s) + forest_hits(s.specifics@)
}

/// Measured addresses in all subtrees of a forest.
pub open spec fn forest_hits(f: Seq<Specific>) -> nat
    decreases f,
{
    if f.len() == 0 {
        0
    } else {
        subtree_hits(f[0]) + forest_hits(f.drop_first())
    }
}

pub proof fn lemma_forest_hits_push(a: Seq<Specific>, x: Specific)
    ensures
        forest_hits(a.push(x)) == forest_hits(a) + subtree_hits(x),
    decreases a.len(),
{
    if a.len() == 0 {
        assert(a.push(x)[0] == x);
        assert(a.push(x).drop_first() =~= a);
    } else {
        assert(a.push(x)[0] == a[0]);
        assert(a.push(x).drop_first() =~= a.drop_first().push(x));
        lemma_forest_hits_push(a.drop_first(), x);
    }
}

pub proof fn lemma_forest_hits_prefix_le(f: Seq<Specific>, i: int)
    requires
        0 <= i <= f.len(),
    ensures
        forest_hits(f.subrange(0, i)) <= forest_hits(f),
    decreases f.len() - i,
{
    if i == f.len() {
        assert(f.subrange(0, i) =~= f);
    } else {
        assert(f.subrange(0, i + 1) =~= f.subrange(0, i).push(f[i]));
        lemma_forest_hits_push(f.subrange(0, i), f[i]);
        lemma_forest_hits_prefix_le(f, i + 1);
    }
}

/// Sum of the metadata values of a run of data points.
pub open spec fn dp_sum_spec(s: Seq<DataPoint>) -> int
    decreases s.len(),
{
    if s.len() == 0 {
        0
    } else {
        dp_sum_spec(s.drop_last()) + s.last().meta
    }
}

pub proof fn lemma_dp_sum_prefix_le(s: Seq<DataPoint>, i: int)
    requires
        0 <= i <= s.len(),
    ensures
        0 <= dp_sum_spec(s.subrange(0, i)) <= dp_sum_spec(s),
    decreases s.len() - i,
{
    if i == s.len() {
        assert(s.subrange(0, i) =~= s);
        lemma_dp_sum_nonneg(s);
    } else {
        assert(s.subrange(0, i + 1).drop_last() =~= s.subrange(0, i));
        lemma_dp_sum_prefix_le(s, i + 1);
        lemma_dp_sum_nonneg(s.subrange(0, i));
    }
}

pub proof fn lemma_dp_sum_nonneg(s: Seq<DataPoint>)
    ensures
        dp_sum_spec(s) >= 0,
    decreases s.len(),
{
    if s.len() > 0 {
        lemma_dp_sum_nonneg(s.drop_last());
    }
}

/// The metadata values of a run of data points, in order.
pub open spec fn metas(s: Seq<DataPoint>) -> Seq<u32> {
    s.map_values(|d: DataPoint| d.meta)
}

/// Number of distinct values in a sequence, counted at first occurrence.
pub open spec fn uniq_count(s: Seq<u32>) -> nat
    decreases s.len(),
{
    if s.len() == 0 {
        0
    } else {
        uniq_count(s.drop_last()) + if s.drop_last().contains(s.last()) {
            0nat
        } else {
            1nat
        }
    }
}

/// A sequence of decimal digit characters.
pub open spec fn all_digits(s: Seq<char>) -> bool {
    forall|i: int| 0 <= i < s.len() ==> 48 <= (#[trigger] s[i]) as int <= 57
}

/// The numeric value of a sequence of decimal digits.
pub open spec fn dec_val(s: Seq<char>) -> int
    decreases s.len(),
{
    if s.len() == 0 {
        0
    } else {
        dec_val(s.drop_last()) * 10 + (s.last() as int - 48)
    }
}

pub proof fn lemma_dec_val_nonneg(s: Seq<char>)
    requires
        all_digits(s),
    ensures
        dec_val(s) >= 0,
    decreases s.len(),
{
    if s.len() > 0 {
        assert(all_digits(s.drop_last()));
        lemma_dec_val_nonneg(s.drop_last());
    }
}

pub proof fn lemma_dec_val_prefix_le(s: Seq<char>, i: int)
    requires
        all_digits(s),
        0 <= i <= s.len(),
    ensures
        dec_val(s.subrange(0, i)) <= dec_val(s),
    decreases s.len() - i,
{
    if i == s.len() {
        assert(s.subrange(0, i) =~= s);
    } else {
        assert(s.subrange(0, i + 1).drop_last() =~= s.subrange(0, i));
        assert(all_digits(s.subrange(0, i)));
        lemma_dec_val_nonneg(s.subrange(0, i));
        assert(dec_val(s.subrange(0, i + 1)) == dec_val(s.subrange(0, i)) * 10 + (s[i] as int
            - 48));
        lemma_dec_val_prefix_le(s, i + 1);
    }
}

/// Parse an unsigned decimal number; anything else, the empty string and
/// out-of-range values included, gives zero. Only plain digit runs count:
/// unlike Rust's own unsigned parser, a leading sign (`+`) is treated as
/// non-numeric, so a signed label maps to zero.
pub fn parse_u32(s: &str) -> (r: u32)
    ensures
        r as int == if s@.len() > 0 && all_digits(s@) && dec_val(s@) <= u32::MAX as int {
            dec_val(s@)
        } else {
            0
        },
{
    let n = s.unicode_len();
    if n == 0 {
        return 0;
    }
    let mut acc: u64 = 0;
    let mut i: usize = 0;
    while i < n
        invariant
            i <= n,
            n == s@.len(),
            all_digits(s@.subrange(0, i as int)),
            acc as int == dec_val(s@.subrange(0, i as int)),
            acc <= u32::MAX as u64,
        decreases n - i,
    {
        let c = s.get_char(i);
        let d = c as u32;
        if d < 48 || d > 57 {
            proof {
                assert(s@[i as int] == c);
                assert(!all_digits(s@));
            }
            return 0;
        }
        proof {
            assert(s@.subrange(0, i + 1).drop_last() =~= s@.subrange(0, i as int));
            assert(s@.subrange(0, i + 1).last() == s@[i as int]);
            assert(all_digits(s@.subrange(0, i + 1)));
        }
        acc = acc * 10 + (d - 48) as u64;
        if acc > u32::MAX as u64 {
            proof {
                if all_digits(s@) && dec_val(s@) <= u32::MAX as int {
                    lemma_dec_val_prefix_le(s@, i + 1);
                }
            }
            return 0;
        }
        i = i + 1;
    }
    proof {
        assert(s@.subrange(0, n as int) =~= s@);
    }
    acc as u32
}

/// Group a list of entries into a containment forest.
///
/// The head of the remaining input becomes a root; the contiguous run of
/// following entries whose base address it covers becomes, recursively
/// grouped, its children; the rest of the input is grouped the same way.
///
/// When the input is sorted so that every entry is directly followed by the
/// contiguous run of entries it contains, the result nests every range under
/// its closest covering range. On any input, sorted or not, every entry ends
/// up in the forest exactly once, in input order (preorder).
pub fn specs_to_hier(specifics: Vec<Specific>) -> (r: Vec<Specific>)
    requires
        all_leaves(specifics@),
        ranges_wf(specifics@),
    ensures
        preorder(r@) == entries(specifics@),
        forest_count(r@) == specifics@.len(),
        ranges_wf(r@),
        hier_input_ok(specifics@) ==> forest_ok(r@),
    decreases specifics@.len(),
{
    let mut rest = specifics;
    if rest.len() == 0 {
        proof {
            lemma_forest_count_is_preorder_len(rest@);
            assert(forest_ok(rest@));
        }
        return rest;
    }
    let ghost input = rest@;
    let mut root = rest.remove(0);
    let ghost rest0 = input.drop_first();
    proof {
        assert(rest@ =~= rest0);
    }
    let mut nested: Vec<Specific> = Vec::new();
    loop
        invariant
            root.network.wf(),
            root.specifics@.len() == 0,
            nested@ + rest@ =~= rest0,
            all_leaves(nested@),
            ranges_wf(nested@),
            all_leaves(rest@),
            ranges_wf(rest@),
            rest0.len() == input.len() - 1,
            forall|i: int|
                0 <= i < nested@.len() ==> root.network.covers(
                    (#[trigger] nested@[i]).network.base,
                ),
        ensures
            root.network.wf(),
            root.specifics@.len() == 0,
            nested@ + rest@ =~= rest0,
            all_leaves(nested@),
            ranges_wf(nested@),
            all_leaves(rest@),
            ranges_wf(rest@),
            forall|i: int|
                0 <= i < nested@.len() ==> root.network.covers(
                    (#[trigger] nested@[i]).network.base,
                ),
            rest@.len() == 0 || !root.network.covers(rest@[0].network.base),
        decreases rest@.len(),
    {
        if rest.len() == 0 {
            break;
        }
        if !root.network.contains(rest[0].network.base) {
            break;
        }
        let item = rest.remove(0);
        proof {
            let prev_nested = nested@;
            assert(prev_nested.push(item) + rest@ =~= rest0);
        }
        nested.push(item);
    }
    proof {
        assert(nested@.len() < input.len());
        assert(rest@.len() < input.len());
    }
    let ghost nestedv = nested@;
    let ghost restv = rest@;
    let children = specs_to_hier(nested);
    let ghost childrenv = children@;
    root.specifics = children;
    let mut tail = specs_to_hier(rest);
    let ghost tailv = tail@;
    let mut result: Vec<Specific> = Vec::new();
    result.push(root);
    result.append(&mut tail);
    proof {
        let r = result@;
        assert(r.drop_first() =~= tailv);
        assert(preorder(r) == seq![entry_of(r[0])] + preorder(r[0].specifics@) + preorder(
            r.drop_first(),
        ));
        assert(entry_of(r[0]) == entry_of(input[0]));
        lemma_entries_append(nestedv, restv);
        assert(nestedv + restv =~= rest0);
        assert(entries(input) == seq![entry_of(input[0])] + entries(input.drop_first()));
        assert(preorder(r) =~~= entries(input));
        lemma_forest_count_is_preorder_len(r);
        lemma_entries_len(input);
        assert(ranges_wf(r)) by {
            assert(forall|i: int|
                1 <= i < r.len() ==> (#[trigger] r[i]).network.wf() && r[i] == tailv[i - 1]);
        }
        if hier_input_ok(input) {
            let k = nestedv.len() as int;
            let n = input.len() as int;
            assert(nestedv + restv == rest0);
            assert forall|i: int| 0 <= i < k implies nestedv[i] == #[trigger] input[1 + i] by {
                assert((nestedv + restv)[i] == nestedv[i]);
                assert(rest0[i] == input.drop_first()[i]);
                assert(input.drop_first()[i] == input[1 + i]);
            }
            assert forall|i: int|
                0 <= i < restv.len() implies restv[i] == #[trigger] input[1 + k + i] by {
                assert((nestedv + restv)[k + i] == restv[i]);
                assert(rest0[k + i] == input.drop_first()[k + i]);
                assert(input.drop_first()[k + i] == input[1 + k + i]);
            }
            lemma_input_ok_subrange(input, 1, 1 + k);
            assert(input.subrange(1, 1 + k) =~= nestedv);
            lemma_input_ok_subrange(input, 1 + k, n);
            assert(restv.len() == n - 1 - k);
            assert forall|i: int|
                0 <= i < restv.len() implies input.subrange(1 + k, n)[i] == restv[i] by {
                assert(input.subrange(1 + k, n)[i] == input[1 + k + i]);
            }
            assert(input.subrange(1 + k, n) =~= restv);
            assert(forest_ok(childrenv));
            assert(forest_ok(tailv));
            assert forall|i: int| 0 <= i < childrenv.len() implies r[0].network.covers_range(
                (#[trigger] childrenv[i]).network,
            ) by {
                let j = lemma_top_network_from(childrenv, nestedv, i);
                assert(root.network.covers(nestedv[j].network.base));
                assert(input[0].network.covers(input[1 + j].network.base));
                assert(input[0].network.covers_range(input[1 + j].network));
            }
            assert(node_ok(r[0])) by {
                assert(r[0].specifics@ == childrenv);
            }
            assert forall|jj: int| 1 <= jj < r.len() implies !r[0].network.covers_range(
                (#[trigger] r[jj]).network,
            ) && !r[jj].network.covers_range(r[0].network) by {
                let m = lemma_top_network_from(tailv, restv, jj - 1);
                assert(r[jj] == tailv[jj - 1]);
                assert(r[jj].network == input[1 + k + m].network);
                assert(!input[1 + k + m].network.covers_range(input[0].network));
                if r[0].network.covers_range(r[jj].network) {
                    assert(input[0].network.covers(input[1 + k + m].network.base));
                    if m > 0 {
                        assert(input[0].network.covers(input[1 + k].network.base));
                    }
                    assert(restv[0] == input[1 + k]);
                    assert(root.network.covers(restv[0].network.base));
                    assert(false);
                }
            }
            assert(siblings_disjoint(r)) by {
                assert(forall|i: int| 1 <= i < r.len() ==> #[trigger] r[i] == tailv[i - 1]);
                assert(siblings_disjoint(tailv));
                assert forall|i: int, j: int|
                    1 <= i < j < r.len() implies !(#[trigger] r[i]).network.covers_range(
                    (#[trigger] r[j]).network,
                ) && !r[j].network.covers_range(r[i].network) by {
                    assert(tailv[i - 1] == r[i] && tailv[j - 1] == r[j]);
                }
            }
            assert(forest_ok(r)) by {
                assert(forall|i: int|
                    1 <= i < r.len() ==> #[trigger] r[i] == tailv[i - 1] && node_ok(tailv[i - 1]));
            }
        }
    }
    result
}

/// Idempotence of metric aggregation: any two calls of `all_hits` on the
/// same unmutated node return the same number, because the result is a
/// pure function (`subtree_hits`) of the node's value.
pub proof fn lemma_aggregate_idempotent(s: Specific, r1: usize, r2: usize)
    requires
        call_ensures(Specific::all_hits, (&s,), r1),
        call_ensures(Specific::all_hits, (&s,), r2),
    ensures
        r1 == r2,
{
}

impl Specific {
    /// Record one measured address under this range.
    pub fn push_dp(&mut self, dp: DataPoint)
        ensures
            final(self).datapoints@ == old(self).datapoints@.push(dp),
            final(self).network == old(self).network,
            final(self).asn@ == old(self).asn@,
            final(self).specifics@ == old(self).specifics@,
    {
        self.datapoints.push(dp);
    }

    /// Measured addresses directly inside this range.
    pub fn hits(&self) -> (r: usize)
        ensures
            r as nat == own_hits(*self),
    {
        self.datapoints.len()
    }

    /// Measured addresses inside the more-specific ranges, recursively.
    pub fn hits_in_specifics(&self) -> (r: usize)
        requires
            forest_hits(self.specifics@) <= usize::MAX,
        ensures
            r as nat == forest_hits(self.specifics@),
        decreases *self,
    {
        let mut total: usize = 0;
        let mut i: usize = 0;
        let n = self.specifics.len();
        while i < n
            invariant
                i <= n,
                n == self.specifics@.len(),
                forest_hits(self.specifics@) <= usize::MAX,
                total as nat == forest_hits(self.specifics@.subrange(0, i as int)),
            decreases n - i,
        {
            proof {
                assert(self.specifics@.subrange(0, i + 1) =~= self.specifics@.subrange(
                    0,
                    i as int,
                ).push(self.specifics@[i as int]));
                lemma_forest_hits_push(
                    self.specifics@.subrange(0, i as int),
                    self.specifics@[i as int],
                );
                lemma_forest_hits_prefix_le(self.specifics@, i + 1);
            }
            let child = &self.specifics[i];
            let ch = child.hits();
            let cs = child.hits_in_specifics();
            total = total + ch;
            total = total + cs;
            i = i + 1;
        }
        proof {
            assert(self.specifics@.subrange(0, n as int) =~= self.specifics@);
        }
        total
    }

    /// The aggregate metric of this range: its own measured addresses plus,
    /// recursively, those of every more-specific range below it. A pure
    /// function of the node's value: recomputing it on an unchanged node
    /// gives the same number.
    pub fn all_hits(&self) -> (r: usize)
        requires
            subtree_hits(*self) <= usize::MAX,
        ensures
            r as nat == subtree_hits(*self),
    {
        let own = self.hits();
        let below = self.hits_in_specifics();
        own + below
    }

    /// Sum of the metadata values directly inside this range.
    pub fn dp_sum(&self) -> (r: u64)
        requires
            dp_sum_spec(self.datapoints@) <= u64::MAX as int,
        ensures
            r as int == dp_sum_spec(self.datapoints@),
    {
        let mut total: u64 = 0;
        let mut i: usize = 0;
        let n = self.datapoints.len();
        while i < n
            invariant
                i <= n,
                n == self.datapoints@.len(),
                dp_sum_spec(self.datapoints@) <= u64::MAX as int,
                total as int == dp_sum_spec(self.datapoints@.subrange(0, i as int)),
            decreases n - i,
        {
            proof {
                assert(self.datapoints@.subrange(0, i + 1).drop_last() =~= self.datapoints@
                    .subrange(0, i as int));
                assert(self.datapoints@.subrange(0, i + 1).last() == self.datapoints@[i as int]);
                lemma_dp_sum_prefix_le(self.datapoints@, i + 1);
            }
            total = total + self.datapoints[i].meta as u64;
            i = i + 1;
        }
        proof {
            assert(self.datapoints@.subrange(0, n as int) =~= self.datapoints@);
        }
        total
    }

    /// Number of distinct metadata values directly inside this range.
    pub fn dp_uniq(&self) -> (r: usize)
        ensures
            r as nat == uniq_count(metas(self.datapoints@)),
    {
        let ghost ms = metas(self.datapoints@);
        let mut count: usize = 0;
        let mut i: usize = 0;
        let n = self.datapoints.len();
        while i < n
            invariant
                i <= n,
                n == self.datapoints@.len(),
                ms == metas(self.datapoints@),
                ms.len() == n,
                count <= i,
                count as nat == uniq_count(ms.subrange(0, i as int)),
            decreases n - i,
    {
            let mut seen = false;
            let mut j: usize = 0;
            while j < i
                invariant
                    j <= i,
                    i < n,
                    n == self.datapoints@.len(),
                    ms == metas(self.datapoints@),
                    ms.len() == n,
                    seen == exists|t: int| 0 <= t < j && ms[t] == ms[i as int],
                decreases i - j,
            {
                proof {
                    assert(ms[j as int] == self.datapoints@[j as int].meta);
                    assert(ms[i as int] == self.datapoints@[i as int].meta);
                }
                if self.datapoints[j].meta == self.datapoints[i].meta {
                    seen = true;
                }
                j = j + 1;
            }
            proof {
                assert(ms.subrange(0, i + 1).drop_last() =~= ms.subrange(0, i as int));
                assert(ms.subrange(0, i + 1).last() == ms[i as int]);
                let sub = ms.subrange(0, i as int);
                if seen {
                    let t = choose|t: int| 0 <= t < i && ms[t] == ms[i as int];
                    assert(sub[t] == ms[t]);
                    assert(sub.contains(ms[i as int]));
                } else {
                    if sub.contains(ms[i as int]) {
                        let t = choose|t: int| 0 <= t < sub.len() && sub[t] == ms[i as int];
                        assert(ms[t] == ms[i as int]);
                        assert(false);
                    }
                }
                assert(seen == ms.subrange(0, i as int).contains(ms[i as int]));
            }
            if !seen {
                count = count + 1;
            }
            i = i + 1;
        }
        proof {
            assert(ms.subrange(0, n as int) =~= ms);
        }
        count
    }

    /// Replace every observed TTL directly inside this range by the
    /// inferred hop count.
    pub fn dps_ttl_to_path_length(&mut self)
        ensures
            final(self).datapoints@ == old(self).datapoints@.map_values(
                |d: DataPoint| DataPoint { ip6: d.ip6, meta: ttl_path_length(d.meta) },
            ),
            final(self).network == old(self).network,
            final(self).asn@ == old(self).asn@,
            final(self).specifics@ == old(self).specifics@,
    {
        let ghost dps0 = self.datapoints@;
        let n = self.datapoints.len();
        let mut i: usize = 0;
        while i < n
            invariant
                i <= n,
                n == self.datapoints@.len(),
                dps0.len() == n,
                self.network == old(self).network,
                self.asn@ == old(self).asn@,
                self.specifics@ == old(self).specifics@,
                forall|t: int| i <= t < n ==> #[trigger] self.datapoints@[t] == dps0[t],
                forall|t: int|
                    0 <= t < i ==> #[trigger] self.datapoints@[t] == (DataPoint {
                        ip6: dps0[t].ip6,
                        meta: ttl_path_length(dps0[t].meta),
                    }),
            decreases n - i,
        {
            let mut dp = self.datapoints[i];
            dp.ttl_to_path_length();
            self.datapoints.set(i, dp);
            i = i + 1;
        }
        proof {
            assert(self.datapoints@ =~= dps0.map_values(
                |d: DataPoint| DataPoint { ip6: d.ip6, meta: ttl_path_length(d.meta) },
            ));
        }
    }

    /// The prefix length of this range.
    pub fn prefix_len(&self) -> (r: u8)
        ensures
            r == self.network.prefix,
    {
        self.network.prefix
    }

    /// The label shown for this range: its announcing party.
    pub fn to_string(&self) -> (r: String)
        ensures
            r@ == "AS"@ + self.asn@,
    {
        let prefix = String::from_str("AS");
        prefix.concat(self.asn.as_str())
    }

    /// The announcing party as a number; zero when the label is not a
    /// plain decimal number in range (a sign prefix counts as non-numeric).
    pub fn asn(&self) -> (r: u32)
        ensures
            r as int == if self.asn@.len() > 0 && all_digits(self.asn@) && dec_val(self.asn@)
                <= u32::MAX as int {
                dec_val(self.asn@)
            } else {
                0
            },
    {
        parse_u32(self.asn.as_str())
    }

    /// The layout weight of this range: one in unsized mode, else the
    /// address-space weight under the default growth ratio.
    pub fn size(&self, unsized_rectangles: bool) -> (r: u64)
        requires
            self.network.wf(),
        ensures
            r == if unsized_rectangles {
                1int
            } else {
                pow_sat(12, 10, (128 - self.network.prefix) as nat)
            },
            r >= 1,
    {
        if unsized_rectangles {
            1
        } else {
            self.__size()
        }
    }

    /// The address-space weight: ten-twelfths growth per prefix bit below
    /// the full address width.
    pub fn __size(&self) -> (r: u64)
        requires
            self.network.wf(),
        ensures
            r as int == pow_sat(12, 10, (128 - self.network.prefix) as nat),
            r >= 1,
    {
        growth_weight(12, 10, 128 - self.network.prefix)
    }
}

} // verus!
