//! The address resolver's computing half: every backend domain is resolved
//! independently, failures are collected rather than propagated, and the
//! desired address set is the union of everything freshly resolved — joined
//! with the cached set only when some resolution failed for want of
//! connectivity. A failure of one domain never discards another's
//! addresses, and the cache alone is never substituted for fresh results.

use vstd::prelude::*;
use crate::addr::Address;
use crate::cache::{load_cache, spec_cache_entries, CacheRead};
use crate::error::SyncError;
use crate::reconcile::{lemma_concat_contains, no_dups};

verus! {

/// Whether every line of what a cache read yielded parses.
pub open spec fn spec_cache_ok(c: CacheRead) -> bool {
    match c {
        CacheRead::Absent => true,
        CacheRead::Found(t) => forall|i: int|
            0 <= i < spec_cache_entries(t@).len() ==> (#[trigger] spec_cache_entries(t@)[i])
                is Some,
    }
}

/// The addresses a cache read yielded: none for a missing file.
pub open spec fn spec_cache_addrs(c: CacheRead) -> Seq<Address> {
    match c {
        CacheRead::Absent => Seq::empty(),
        CacheRead::Found(t) => spec_cache_entries(t@).map_values(|e: Option<Address>| e.unwrap()),
    }
}

/// Why a single domain's resolution failed: loss of network connectivity,
/// or anything else (such as a name-not-found answer).
#[derive(Clone, Copy, PartialEq, Eq, Structural, Debug)]
pub enum ResolutionErrorKind {
    NoConnectivity,
    Other,
}

/// One backend domain's resolution: its addresses, or why it failed.
#[derive(Debug)]
pub enum Resolution {
    Resolved(Vec<Address>),
    Failed(ResolutionErrorKind),
}

/// The addresses one resolution contributes.
pub open spec fn resolution_addrs(r: Resolution) -> Seq<Address> {
    match r {
        Resolution::Resolved(v) => v@,
        Resolution::Failed(_) => Seq::empty(),
    }
}

/// Everything the resolutions contributed, in order.
pub open spec fn spec_resolved(rs: Seq<Resolution>) -> Seq<Address>
    decreases rs.len(),
{
    if rs.len() == 0 {
        Seq::empty()
    } else {
        spec_resolved(rs.drop_last()) + resolution_addrs(rs.last())
    }
}

/// Whether some resolution failed for want of connectivity — the one and
/// only trigger for consulting the cache.
pub open spec fn spec_connectivity_loss(rs: Seq<Resolution>) -> bool {
    exists|i: int|
        0 <= i < rs.len() && rs[i] == Resolution::Failed(ResolutionErrorKind::NoConnectivity)
}

/// Whether `a` belongs to the desired address set computed from the
/// resolutions and the cached set.
pub open spec fn in_desired(rs: Seq<Resolution>, cached: Seq<Address>, a: Address) -> bool {
    spec_resolved(rs).contains(a) || (spec_connectivity_loss(rs) && cached.contains(a))
}

/// An address was resolved exactly when some resolution contributed it.
pub proof fn lemma_resolved_membership(rs: Seq<Resolution>)
    ensures
        forall|a: Address|
            #[trigger] spec_resolved(rs).contains(a) <==> exists|i: int|
                0 <= i < rs.len() && resolution_addrs(rs[i]).contains(a),
    decreases rs.len(),
{
    if rs.len() == 0 {
    } else {
        lemma_resolved_membership(rs.drop_last());
        lemma_concat_contains(spec_resolved(rs.drop_last()), resolution_addrs(rs.last()));
        assert forall|a: Address| #[trigger] spec_resolved(rs).contains(a) implies (exists|i: int|
            0 <= i < rs.len() && resolution_addrs(rs[i]).contains(a)) by {
            if spec_resolved(rs.drop_last()).contains(a) {
                let i = choose|i: int|
                    0 <= i < rs.drop_last().len() && resolution_addrs(rs.drop_last()[i]).contains(
                        a,
                    );
                assert(resolution_addrs(rs[i]).contains(a));
            } else {
                assert(resolution_addrs(rs[rs.len() - 1]).contains(a));
            }
        }
        assert forall|a: Address|
            (exists|i: int|
                0 <= i < rs.len() && resolution_addrs(rs[i]).contains(
                    a,
                )) implies #[trigger] spec_resolved(rs).contains(a) by {
            let i = choose|i: int| 0 <= i < rs.len() && resolution_addrs(rs[i]).contains(a);
            if i < rs.len() - 1 {
                assert(resolution_addrs(rs.drop_last()[i]).contains(a));
            }
        }
    }
}

/// Whether some resolution failed for want of connectivity.
pub fn needs_cache_fallback(rs: &Vec<Resolution>) -> (r: bool)
    ensures
        r == spec_connectivity_loss(rs@),
{
    let mut i: usize = 0;
    while i < rs.len()
        invariant
            0 <= i <= rs@.len(),
            forall|j: int|
                0 <= j < i ==> rs@[j] != Resolution::Failed(ResolutionErrorKind::NoConnectivity),
        decreases rs@.len() - i,
    {
        match &rs[i] {
            Resolution::Failed(kind) => {
                if *kind == ResolutionErrorKind::NoConnectivity {
                    return true;
                }
            },
            Resolution::Resolved(_) => {},
        }
        i += 1;
    }
    false
}

/// The desired address set: everything freshly resolved, joined with the
/// cached set exactly when some resolution failed for want of connectivity.
/// Duplicates are dropped; nothing else is.
pub fn desired_routes(rs: &Vec<Resolution>, cached: &Vec<Address>) -> (r: Vec<Address>)
    ensures
        forall|a: Address| #[trigger] r@.contains(a) <==> in_desired(rs@, cached@, a),
        no_dups(r@),
{
    let mut out: Vec<Address> = Vec::new();
    let mut i: usize = 0;
    while i < rs.len()
        invariant
            0 <= i <= rs@.len(),
            forall|a: Address|
                #[trigger] out@.contains(a) <==> spec_resolved(rs@.take(i as int)).contains(a),
            no_dups(out@),
        decreases rs@.len() - i,
    {
        proof {
            assert(rs@.take(i + 1 as int).drop_last() =~= rs@.take(i as int));
            assert(rs@.take(i + 1 as int).last() == rs@[i as int]);
            lemma_concat_contains(
                spec_resolved(rs@.take(i as int)),
                resolution_addrs(rs@[i as int]),
            );
        }
        match &rs[i] {
            Resolution::Resolved(v) => {
                let mut j: usize = 0;
                while j < v.len()
                    invariant
                        0 <= j <= v@.len(),
                        forall|a: Address|
                            #[trigger] out@.contains(a) <==> spec_resolved(
                                rs@.take(i as int),
                            ).contains(a) || v@.take(j as int).contains(a),
                        no_dups(out@),
                    decreases v@.len() - j,
                {
                    let a = v[j];
                    let ghost pre = out@;
                    if !crate::reconcile::contains_addr(&out, &a) {
                        out.push(a);
                    }
                    proof {
                        assert(v@.take(j + 1 as int).drop_last() =~= v@.take(j as int));
                        assert(v@.take(j + 1 as int).last() == v@[j as int]);
                        lemma_push_membership(pre, out@, v@[j as int]);
                    }
                    j += 1;
                }
                proof {
                    assert(v@.take(v@.len() as int) =~= v@);
                    assert(resolution_addrs(rs@[i as int]) == v@);
                }
            },
            Resolution::Failed(_) => {
                proof {
                    assert(resolution_addrs(rs@[i as int]) =~= Seq::<Address>::empty());
                }
            },
        }
        i += 1;
    }
    proof {
        assert(rs@.take(rs@.len() as int) =~= rs@);
    }
    if needs_cache_fallback(rs) {
        let mut j: usize = 0;
        while j < cached.len()
            invariant
                0 <= j <= cached@.len(),
                spec_connectivity_loss(rs@),
                forall|a: Address|
                    #[trigger] out@.contains(a) <==> spec_resolved(rs@).contains(a)
                        || cached@.take(j as int).contains(a),
                no_dups(out@),
            decreases cached@.len() - j,
        {
            let a = cached[j];
            let ghost pre = out@;
            if !crate::reconcile::contains_addr(&out, &a) {
                out.push(a);
            }
            proof {
                assert(cached@.take(j + 1 as int).drop_last() =~= cached@.take(j as int));
                assert(cached@.take(j + 1 as int).last() == cached@[j as int]);
                lemma_push_membership(pre, out@, cached@[j as int]);
            }
            j += 1;
        }
        proof {
            assert(cached@.take(cached@.len() as int) =~= cached@);
        }
    }
    out
}

/// After conditionally pushing `a`, membership is the old membership plus `a`.
proof fn lemma_push_membership(pre: Seq<Address>, post: Seq<Address>, a: Address)
    requires
        post == pre || (!pre.contains(a) && post == pre.push(a)),
        post == pre ==> pre.contains(a),
        no_dups(pre),
    ensures
        forall|x: Address| #[trigger] post.contains(x) <==> pre.contains(x) || x == a,
        no_dups(post),
{
    if post == pre {
    } else {
        assert forall|x: Address| #[trigger] post.contains(x) implies pre.contains(x) || x
            == a by {
            let i = choose|i: int| 0 <= i < post.len() && post[i] == x;
            if i < pre.len() {
                assert(pre[i] == x);
            }
        }
        assert forall|x: Address| pre.contains(x) || x == a implies #[trigger] post.contains(
            x,
        ) by {
            if pre.contains(x) {
                let i = choose|i: int| 0 <= i < pre.len() && pre[i] == x;
                assert(post[i] == x);
            } else {
                assert(post[pre.len() as int] == x);
            }
        }
        assert forall|i: int, j: int| 0 <= i < j < post.len() implies post[i] != post[j] by {
            if j == pre.len() {
                assert(post[i] == pre[i]);
                assert(pre.contains(pre[i]));
            }
        }
    }
}

/// The full resolution step: the desired address set is the union of
/// everything freshly resolved and — only when some resolution failed for
/// want of connectivity — the cached set; the cache read is looked at in
/// that case alone, and an unparseable line in it is the only failure.
pub fn routes(resolutions: &Vec<Resolution>, cache: &CacheRead) -> (r: Result<
    Vec<Address>,
    SyncError,
>)
    ensures
        !spec_connectivity_loss(resolutions@) ==> r is Ok,
        spec_cache_ok(*cache) ==> r is Ok,
        spec_connectivity_loss(resolutions@) && !spec_cache_ok(*cache) ==> r is Err,
        r matches Ok(v) ==> (forall|a: Address|
            #[trigger] v@.contains(a) <==> in_desired(
                resolutions@,
                if spec_connectivity_loss(resolutions@) {
                    spec_cache_addrs(*cache)
                } else {
                    Seq::empty()
                },
                a,
            )) && no_dups(v@),
        r matches Err(e) ==> spec_connectivity_loss(resolutions@) && (cache matches
            CacheRead::Found(t) && {
            let ents = spec_cache_entries(t@);
            exists|i: int|
                0 <= i < ents.len() && ents[i] is None && (forall|j: int|
                    0 <= j < i ==> (#[trigger] ents[j]) is Some) && (e matches
                SyncError::CacheParse { line } && line@ == crate::text::spec_lines(t@)[i])
        }),
{
    let cached: Vec<Address> = if needs_cache_fallback(resolutions) {
        match load_cache(cache) {
            Ok(v) => {
                proof {
                    match cache {
                        CacheRead::Absent => {
                            assert(v@ =~= spec_cache_addrs(*cache));
                        },
                        CacheRead::Found(t) => {
                            let ents = spec_cache_entries(t@);
                            assert(forall|k: int|
                                0 <= k < ents.len() ==> #[trigger] ents[k] == Some(v@[k]));
                            assert(v@ =~= spec_cache_addrs(*cache));
                        },
                    }
                    assert(spec_cache_ok(*cache));
                }
                v
            },
            Err(e) => {
                return Err(e);
            },
        }
    } else {
        Vec::new()
    };
    let out = desired_routes(resolutions, &cached);
    proof {
        if spec_connectivity_loss(resolutions@) {
            assert(cached@ == spec_cache_addrs(*cache));
        } else {
            assert(forall|a: Address|
                in_desired(resolutions@, cached@, a) == in_desired(
                    resolutions@,
                    Seq::<Address>::empty(),
                    a,
                ));
        }
    }
    Ok(out)
}

/// Partial-resolution tolerance: whatever one domain's resolution
/// contributed is in the desired set, whatever became of the others; and
/// when no failure is a connectivity loss, the cache plays no part.
pub proof fn lemma_partial_resolution(rs: Seq<Resolution>, cached: Seq<Address>, i: int)
    requires
        0 <= i < rs.len(),
    ensures
        forall|a: Address|
            #[trigger] resolution_addrs(rs[i]).contains(a) ==> in_desired(rs, cached, a),
        (forall|j: int|
            0 <= j < rs.len() ==> rs[j] != Resolution::Failed(
                ResolutionErrorKind::NoConnectivity,
            )) ==> !spec_connectivity_loss(rs),
{
    lemma_resolved_membership(rs);
}

/// Connectivity-loss fallback: when every resolution failed for want of
/// connectivity, the desired set is exactly the cached set.
pub proof fn lemma_connectivity_fallback(rs: Seq<Resolution>, cached: Seq<Address>)
    requires
        rs.len() > 0,
        forall|i: int|
            0 <= i < rs.len() ==> rs[i] == Resolution::Failed(ResolutionErrorKind::NoConnectivity),
    ensures
        forall|a: Address| in_desired(rs, cached, a) <==> cached.contains(a),
{
    assert(rs[0] == Resolution::Failed(ResolutionErrorKind::NoConnectivity));
    assert(spec_connectivity_loss(rs));
    lemma_resolved_membership(rs);
    assert forall|a: Address| !spec_resolved(rs).contains(a) by {
        if spec_resolved(rs).contains(a) {
            let i = choose|i: int| 0 <= i < rs.len() && resolution_addrs(rs[i]).contains(a);
            assert(resolution_addrs(rs[i]) =~= Seq::<Address>::empty());
        }
    }
}

} // verus!
