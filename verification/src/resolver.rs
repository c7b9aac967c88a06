//! The second decode pass: turning pending compression pointers into
//! fully qualified names.
//!
//! Resolution walks a pointer chain through the full datagram, carrying
//! the set of offsets already visited so a malformed, cyclic chain is
//! rejected in bounded time, and a per-message cache so that repeated
//! references to the same offset are answered at once.  The cache lives
//! for exactly one datagram and is never shared across messages.

use std::collections::HashMap;

use vstd::prelude::*;

use crate::bits::{copy_bits, BitCursor};
use crate::error::MDNSError;
use crate::name::{
    copy_labels, labels_view, labels_wf, lemma_labels_wf_concat, parse_name, DomainName, NameSpec,
};

verus! {

broadcast use vstd::std_specs::hash::group_hash_axioms;

/// The fixed header occupies the first 12 bytes of a datagram;
/// a compression pointer may not target them.
pub const HEADER_BYTES: u16 = 12;

/// A per-message mapping from absolute byte offset to the fully
/// resolved label sequence found there.  Created fresh for each
/// decoded datagram and discarded afterwards.
pub type PointerCache = HashMap<u16, Vec<Vec<u8>>>;

/// What following the pointer chain that starts at byte offset `off`
/// of `data` yields: the label sequence spelled there, fully resolved;
/// or the first error.  `visited` holds the offsets already on the
/// chain, so a revisit is a `CompressionCycle`; an offset inside the
/// fixed header or past the datagram is `PointerOutOfRange`.  `fuel`
/// bounds the chain length; a datagram has fewer distinct offsets than
/// bits, so the fuel of [`resolve_fuel`] never runs out first.
pub open spec fn spec_resolve(data: Seq<bool>, off: int, visited: Set<int>, fuel: nat) -> Result<
    Seq<Seq<u8>>,
    MDNSError,
>
    decreases fuel,
{
    if visited.contains(off) {
        Err(MDNSError::CompressionCycle)
    } else if off < HEADER_BYTES || 8 * off >= data.len() {
        Err(MDNSError::PointerOutOfRange)
    } else {
        match parse_name(data.skip(8 * off)) {
            Err(e) => Err(e),
            Ok((n, c)) => match n.pending {
                None => Ok(n.labels),
                Some(off2) => if fuel == 0 {
                    Err(MDNSError::CompressionCycle)
                } else {
                    match spec_resolve(data, off2, visited.insert(off), (fuel - 1) as nat) {
                        Err(e) => Err(e),
                        Ok(tail) => Ok(n.labels + tail),
                    }
                },
            },
        }
    }
}

/// The fuel every resolution starts with: one unit per bit of the
/// datagram, far more than its number of distinct byte offsets.
pub open spec fn resolve_fuel(data: Seq<bool>) -> nat {
    data.len()
}

/// What the resolve pass makes of one name: an already resolved name
/// is untouched; a pending one has the chain's labels spliced onto its
/// literal prefix.
pub open spec fn spec_resolve_name(data: Seq<bool>, n: NameSpec) -> Result<NameSpec, MDNSError> {
    match n.pending {
        None => Ok(n),
        Some(off) => match spec_resolve(data, off, Set::empty(), resolve_fuel(data)) {
            Err(e) => Err(e),
            Ok(tail) => Ok(NameSpec { labels: n.labels + tail, pending: None }),
        },
    }
}

/// Prefixing a resolution outcome with labels already collected.
pub open spec fn prepend_labels(p: Seq<Seq<u8>>, r: Result<Seq<Seq<u8>>, MDNSError>) -> Result<
    Seq<Seq<u8>>,
    MDNSError,
> {
    match r {
        Err(e) => Err(e),
        Ok(t) => Ok(p + t),
    }
}

/// The byte offsets a walk has visited, as a set.
pub open spec fn offsets_of(v: Seq<u16>) -> Set<int> {
    Set::new(|o: int| exists|i: int| 0 <= i < v.len() && v[i] as int == o)
}

/// Every cache entry is the true resolution of its offset, and its
/// labels are well formed.
pub open spec fn cache_wf(m: Map<u16, Vec<Vec<u8>>>, data: Seq<bool>) -> bool {
    forall|k: u16| #[trigger]
        m.contains_key(k) ==> spec_resolve(data, k as int, Set::empty(), resolve_fuel(data))
            == Ok::<_, MDNSError>(labels_view(m[k]@)) && labels_wf(labels_view(m[k]@))
}

/// Whether `x` is among the offsets walked so far.
fn visited_contains(v: &Vec<u16>, x: u16) -> (r: bool)
    ensures
        r == offsets_of(v@).contains(x as int),
{
    let mut i: usize = 0;
    while i < v.len()
        invariant
            i <= v@.len(),
            forall|j: int| 0 <= j < i ==> v@[j] != x,
        decreases v@.len() - i,
    {
        if v[i] == x {
            proof {
                assert(v@[i as int] as int == x as int);
            }
            return true;
        }
        i = i + 1;
    }
    proof {
        assert(!offsets_of(v@).contains(x as int)) by {
            assert(forall|j: int| 0 <= j < v@.len() ==> v@[j] != x);
        }
    }
    false
}

/// Follow the pointer chain that starts at `start`, against the full
/// datagram, and return the fully resolved label sequence found there.
/// The walk tracks the offsets it has visited and rejects a revisit as
/// a `CompressionCycle`, so it always terminates.
pub fn resolve_chain(data: &Vec<bool>, start: u16) -> (r: Result<Vec<Vec<u8>>, MDNSError>)
    ensures
        match r {
            Ok(ls) => {
                &&& spec_resolve(data@, start as int, Set::empty(), resolve_fuel(data@))
                    == Ok::<_, MDNSError>(labels_view(ls@))
                &&& labels_wf(labels_view(ls@))
            },
            Err(e) => spec_resolve(data@, start as int, Set::empty(), resolve_fuel(data@))
                == Err::<Seq<Seq<u8>>, _>(e),
        },
{
    let ghost fuel_total: nat = resolve_fuel(data@);
    let mut visited: Vec<u16> = Vec::new();
    let mut acc: Vec<Vec<u8>> = Vec::new();
    let mut cur: u16 = start;
    proof {
        assert(labels_view(acc@) =~= Seq::<Seq<u8>>::empty());
        assert(offsets_of(visited@) =~= Set::<int>::empty());
    }
    loop
        invariant
            visited@.len() <= fuel_total,
            fuel_total == resolve_fuel(data@),
            spec_resolve(data@, start as int, Set::empty(), fuel_total) == prepend_labels(
                labels_view(acc@),
                spec_resolve(
                    data@,
                    cur as int,
                    offsets_of(visited@),
                    (fuel_total - visited@.len()) as nat,
                ),
            ),
            labels_wf(labels_view(acc@)),
        decreases fuel_total - visited@.len(),
    {
        let ghost vis: Set<int> = offsets_of(visited@);
        let ghost fuel_now: nat = (fuel_total - visited@.len()) as nat;
        if visited_contains(&visited, cur) {
            return Err(MDNSError::CompressionCycle);
        }
        if cur < HEADER_BYTES || 8 * (cur as usize) >= data.len() {
            return Err(MDNSError::PointerOutOfRange);
        }
        let mut c = BitCursor::at_position(copy_bits(data), 8 * (cur as usize));
        proof {
            assert(c.remaining() =~= data@.skip(8 * (cur as int)));
        }
        let n = match DomainName::unpack(&mut c) {
            Ok(n) => n,
            Err(e) => {
                return Err(e);
            },
        };
        let ghost acc0: Seq<Seq<u8>> = labels_view(acc@);
        let ghost nl: Seq<Seq<u8>> = n@.labels;
        let mut more = n.labels;
        acc.append(&mut more);
        proof {
            assert(labels_view(acc@) =~= acc0 + nl);
            lemma_labels_wf_concat(acc0, nl);
        }
        match n.pending {
            None => {
                proof {
                    assert(spec_resolve(data@, cur as int, vis, fuel_now) == Ok::<_, MDNSError>(
                        nl,
                    ));
                }
                return Ok(acc);
            },
            Some(off2) => {
                if visited.len() >= data.len() {
                    proof {
                        assert(fuel_now == 0);
                    }
                    return Err(MDNSError::CompressionCycle);
                }
                proof {
                    assert(fuel_now > 0);
                    let inner = spec_resolve(
                        data@,
                        off2 as int,
                        vis.insert(cur as int),
                        (fuel_now - 1) as nat,
                    );
                    assert(spec_resolve(data@, cur as int, vis, fuel_now) == prepend_labels(
                        nl,
                        inner,
                    ));
                    match inner {
                        Err(e) => {},
                        Ok(t) => {
                            assert(acc0 + (nl + t) =~= (acc0 + nl) + t);
                        },
                    }
                }
                let ghost visited0: Seq<u16> = visited@;
                visited.push(cur);
                proof {
                    assert(offsets_of(visited@) =~= offsets_of(visited0).insert(cur as int)) by {
                        assert forall|o: int| offsets_of(visited0).insert(cur as int).contains(o)
                            implies offsets_of(visited@).contains(o) by {
                            if o == cur as int {
                                assert(visited@[visited@.len() - 1] as int == o);
                            } else {
                                let i = choose|i: int|
                                    0 <= i < visited0.len() && visited0[i] as int == o;
                                assert(visited@[i] as int == o);
                            }
                        }
                        assert forall|o: int| offsets_of(visited@).contains(o) implies offsets_of(
                            visited0,
                        ).insert(cur as int).contains(o) by {
                            let i = choose|i: int|
                                0 <= i < visited@.len() && visited@[i] as int == o;
                            if i < visited0.len() {
                                assert(visited0[i] as int == o);
                            } else {
                                assert(o == cur as int);
                            }
                        }
                    }
                }
                cur = off2;
            },
        }
    }
}

/// Resolve one name in place: splice the cached resolution of its
/// pending pointer, or walk the chain and cache what it found at the
/// original target offset.
pub fn resolve_name(name: &mut DomainName, data: &Vec<bool>, cache: &mut PointerCache) -> (r:
    Result<(), MDNSError>)
    requires
        old(name).wf(),
        cache_wf(old(cache)@, data@),
    ensures
        cache_wf(final(cache)@, data@),
        match r {
            Ok(u) => {
                &&& spec_resolve_name(data@, old(name)@) == Ok::<NameSpec, MDNSError>(
                    final(name)@,
                )
                &&& final(name).wf()
                &&& final(name)@.is_resolved()
            },
            Err(e) => spec_resolve_name(data@, old(name)@) == Err::<NameSpec, _>(e),
        },
{
    let off = match name.pending {
        None => {
            return Ok(());
        },
        Some(off) => off,
    };
    let tail: Vec<Vec<u8>> = match cache.get(&off) {
        Some(cached) => copy_labels(cached),
        None => {
            let found = match resolve_chain(data, off) {
                Ok(ls) => ls,
                Err(e) => {
                    return Err(e);
                },
            };
            let copy = copy_labels(&found);
            cache.insert(off, copy);
            found
        },
    };
    proof {
        assert(spec_resolve(data@, off as int, Set::empty(), resolve_fuel(data@))
            == Ok::<_, MDNSError>(labels_view(tail@)));
        assert(labels_wf(labels_view(tail@)));
    }
    let ghost labels0: Seq<Seq<u8>> = old(name)@.labels;
    let ghost tailv: Seq<Seq<u8>> = labels_view(tail@);
    let mut more = tail;
    name.labels.append(&mut more);
    name.pending = None;
    proof {
        assert(labels_view(name.labels@) =~= labels0 + tailv);
        lemma_labels_wf_concat(labels0, tailv);
    }
    Ok(())
}

/// A name that ends in a compression pointer to offset `k` denotes
/// exactly the name spelled literally at `k`: resolving the pointer
/// form splices the very labels the literal form carries, so the two
/// encodings yield the same domain-name value.
pub proof fn lemma_pointer_equivalence(
    data: Seq<bool>,
    k: int,
    n: NameSpec,
    c: int,
    prefix: Seq<Seq<u8>>,
)
    requires
        HEADER_BYTES <= k,
        8 * k < data.len(),
        parse_name(data.skip(8 * k)) == Ok::<_, MDNSError>((n, c)),
        n.is_resolved(),
    ensures
        spec_resolve_name(data, NameSpec { labels: prefix, pending: Some(k) })
            == Ok::<_, MDNSError>(NameSpec { labels: prefix + n.labels, pending: None }),
{
    assert(!Set::<int>::empty().contains(k));
    assert(spec_resolve(data, k, Set::empty(), resolve_fuel(data)) == Ok::<_, MDNSError>(
        n.labels,
    ));
}

} // verus!
