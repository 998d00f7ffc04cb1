//! Colour selection for rendered rectangles.
//!
//! A metric value is mapped onto a fixed 1024-step blue-to-red ramp, with
//! a logarithmic index for wide value ranges; a separately supplied
//! cluster labelling maps announcing parties onto a small set of fixed
//! colours. Colours are packed RGB values; formatting them as text is the
//! renderer's business.

use vstd::prelude::*;
use std::collections::HashMap;

verus! {

broadcast use vstd::std_specs::hash::group_hash_axioms;

/// What a rectangle's colour encodes.
#[derive(Debug)]
pub enum ColourMode {
    Hits,
    DpAvg,
    DpMedian,
    DpVar,
    DpUniq,
    DpSum,
    HwAvg,
    Asn,
}

/// The summary applied to a prefix's metadata values.
#[derive(Debug)]
pub enum DpFunction {
    Mean,
    Median,
    Var,
    Uniq,
    Sum,
}

/// Floor of the base-two logarithm; zero for zero.
pub open spec fn ilog2_32(i: u32) -> u32 {
    if vstd::std_specs::bits::u32_leading_zeros(i) >= 32 {
        0
    } else {
        (31 - vstd::std_specs::bits::u32_leading_zeros(i)) as u32
    }
}

/// Entry `k` of the 1024-step colour ramp: blue to cyan to green to
/// yellow-white to red.
pub open spec fn scale_entry(k: int) -> u32 {
    if 0 <= k < 256 {
        0xffu32 | (((k as u32) << 8u32) as u32)
    } else if 256 <= k < 512 {
        (0xffu32 << 8u32) | ((511 - k) as u32)
    } else if 512 <= k < 768 {
        0xff00u32 | ((((k - 512) as u32) << 16u32) as u32) | ((k - 512) as u32)
    } else {
        0xff0000u32 | ((((1023 - k) as u32) << 8u32) as u32)
    }
}

/// The ramp index of metric value `i` against maximum `max`: linear for
/// small ranges, by base-two logarithm for wide ones, clamped into the
/// ramp with its grey end avoided.
pub open spec fn ramp_index(i: u32, max: u32) -> int {
    let raw = if max > 1024 {
        if ilog2_32(max) == 0 {
            1023
        } else {
            ilog2_32(i) as int * 1024 / ilog2_32(max) as int
        }
    } else {
        if max == 0 {
            1023
        } else {
            i as int * 1024 / max as int
        }
    };
    if raw >= 1024 {
        1023
    } else if raw <= 0 {
        1
    } else {
        raw
    }
}

/// The colour a metric value receives: grey for zero, else its place on
/// the ramp.
pub open spec fn colour_spec(i: u32, max: u32) -> u32 {
    if i == 0 {
        0xeeeeeeu32
    } else {
        scale_entry(ramp_index(i, max))
    }
}

/// Entry `k` of the colour ramp, computed directly.
fn scale_entry_at(k: u64) -> (r: u32)
    requires
        k < 1024,
    ensures
        r == scale_entry(k as int),
{
    if k < 256 {
        0xffu32 | ((k as u32) << 8u32)
    } else if k < 512 {
        (0xffu32 << 8u32) | ((511 - k) as u32)
    } else if k < 768 {
        0xff00u32 | (((k - 512) as u32) << 16u32) | ((k - 512) as u32)
    } else {
        0xff0000u32 | (((1023 - k) as u32) << 8u32)
    }
}

/// The packed RGB colour for metric value `i` on a scale ending at `max`:
/// grey for zero, otherwise a ramp entry, logarithmic when the maximum is
/// large.
pub fn colour(i: u32, max: u32) -> (r: u32)
    ensures
        r == colour_spec(i, max),
{
    if i == 0 {
        return 0xeeeeeeu32;
    }
    let raw: u64 = if max > 1024 {
        let lzm = max.leading_zeros();
        let lgm: u32 = if lzm >= 32 {
            0
        } else {
            31 - lzm
        };
        if lgm == 0 {
            1023
        } else {
            let lzi = i.leading_zeros();
            let lgi: u32 = if lzi >= 32 {
                0
            } else {
                31 - lzi
            };
            (lgi as u64) * 1024 / (lgm as u64)
        }
    } else {
        if max == 0 {
            1023
        } else {
            (i as u64) * 1024 / (max as u64)
        }
    };
    let idx: u64 = if raw >= 1024 {
        1023
    } else if raw == 0 {
        1
    } else {
        raw
    };
    scale_entry_at(idx)
}

/// The colour of a cluster label.
pub open spec fn cluster_colour(name: Seq<char>) -> u32 {
    if name == "cluster0"@ {
        0xff0000u32
    } else if name == "cluster1"@ {
        0xffff00u32
    } else if name == "cluster2"@ {
        0x00ff00u32
    } else if name == "cluster3"@ {
        0xff00ffu32
    } else if name == "cluster4"@ {
        0x00ffffu32
    } else if name == "cluster5"@ {
        0x0000ffu32
    } else {
        0xeeeeeeu32
    }
}

/// The packed RGB colour for an announcing party under a cluster
/// labelling: the colour of its cluster, grey for parties without one or
/// with an unknown cluster name.
pub fn colour_from_map(asn: u32, mapping: &HashMap<u32, String>) -> (r: u32)
    ensures
        r == if mapping@.contains_key(asn) {
            cluster_colour(mapping@[asn]@)
        } else {
            0xeeeeeeu32
        },
{
    match mapping.get(&asn) {
        Some(v) => {
            if v.eq(&String::from_str("cluster0")) {
                0xff0000u32
            } else if v.eq(&String::from_str("cluster1")) {
                0xffff00u32
            } else if v.eq(&String::from_str("cluster2")) {
                0x00ff00u32
            } else if v.eq(&String::from_str("cluster3")) {
                0xff00ffu32
            } else if v.eq(&String::from_str("cluster4")) {
                0x00ffffu32
            } else if v.eq(&String::from_str("cluster5")) {
                0x0000ffu32
            } else {
                0xeeeeeeu32
            }
        },
        None => 0xeeeeeeu32,
    }
}

} // verus!
