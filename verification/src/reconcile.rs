//! Reconciliation: diff the desired address set against the live routing
//! table and compute the minimal, ordered plan of add or delete operations.

use vstd::prelude::*;
use crate::addr::Address;

verus! {

/// No address occurs twice.
pub open spec fn no_dups(s: Seq<Address>) -> bool {
    forall|i: int, j: int| 0 <= i < j < s.len() ==> s[i] != s[j]
}

/// The addresses a block run must add: the desired ones not already present.
pub open spec fn spec_to_add(existing: Seq<Address>, desired: Seq<Address>) -> Seq<Address> {
    desired.filter(|a: Address| !existing.contains(a))
}

/// The addresses an unblock run must delete: the desired ones present.
pub open spec fn spec_to_delete(existing: Seq<Address>, desired: Seq<Address>) -> Seq<Address> {
    desired.filter(|a: Address| existing.contains(a))
}

/// Whether `s` holds `a`.
pub fn contains_addr(s: &Vec<Address>, a: &Address) -> (r: bool)
    ensures
        r == s@.contains(*a),
{
    let mut i: usize = 0;
    while i < s.len()
        invariant
            0 <= i <= s@.len(),
            forall|j: int| 0 <= j < i ==> s@[j] != *a,
        decreases s@.len() - i,
    {
        if s[i] == *a {
            return true;
        }
        i += 1;
    }
    false
}

/// The ordered plan of additions for a block run: every desired address not
/// already in the routing table, in the desired set's order. Addresses
/// already blocked are left untouched.
pub fn block_plan(existing: &Vec<Address>, desired: &Vec<Address>) -> (r: Vec<Address>)
    ensures
        r@ == spec_to_add(existing@, desired@),
{
    let mut r: Vec<Address> = Vec::new();
    let mut i: usize = 0;
    while i < desired.len()
        invariant
            0 <= i <= desired@.len(),
            r@ == spec_to_add(existing@, desired@.take(i as int)),
        decreases desired@.len() - i,
    {
        let a = desired[i];
        if !contains_addr(existing, &a) {
            r.push(a);
        }
        proof {
            reveal(Seq::filter);
            assert(desired@.take(i + 1 as int).drop_last() =~= desired@.take(i as int));
            assert(desired@.take(i + 1 as int).last() == desired@[i as int]);
        }
        i += 1;
    }
    proof {
        assert(desired@.take(desired@.len() as int) =~= desired@);
    }
    r
}

/// The ordered plan of deletions for an unblock run: every desired address
/// that is currently in the routing table. Addresses not blocked are skipped.
pub fn unblock_plan(existing: &Vec<Address>, desired: &Vec<Address>) -> (r: Vec<Address>)
    ensures
        r@ == spec_to_delete(existing@, desired@),
{
    let mut r: Vec<Address> = Vec::new();
    let mut i: usize = 0;
    while i < desired.len()
        invariant
            0 <= i <= desired@.len(),
            r@ == spec_to_delete(existing@, desired@.take(i as int)),
        decreases desired@.len() - i,
    {
        let a = desired[i];
        if contains_addr(existing, &a) {
            r.push(a);
        }
        proof {
            reveal(Seq::filter);
            assert(desired@.take(i + 1 as int).drop_last() =~= desired@.take(i as int));
            assert(desired@.take(i + 1 as int).last() == desired@[i as int]);
        }
        i += 1;
    }
    proof {
        assert(desired@.take(desired@.len() as int) =~= desired@);
    }
    r
}

/// A batch of route mutations: the plan is applied strictly in order, one
/// command per address, and a failure stops the batch where it stands —
/// earlier addresses stay mutated, later ones are never attempted.
pub struct Batch {
    plan: Vec<Address>,
    next: usize,
}

impl Batch {
    /// The full ordered plan.
    pub closed spec fn plan_seq(&self) -> Seq<Address> {
        self.plan@
    }

    /// How many of the plan's addresses have been mutated so far.
    pub closed spec fn issued(&self) -> int {
        self.next as int
    }

    pub open spec fn wf(&self) -> bool {
        0 <= self.issued() <= self.plan_seq().len()
    }

    pub fn new(plan: Vec<Address>) -> (r: Batch)
        ensures
            r.wf(),
            r.plan_seq() == plan@,
            r.issued() == 0,
    {
        Batch { plan, next: 0 }
    }

    /// The next address to mutate, if any remains.
    pub fn next_address(&self) -> (r: Option<Address>)
        requires
            self.wf(),
        ensures
            r is Some <==> self.issued() < self.plan_seq().len(),
            r is Some ==> r.unwrap() == self.plan_seq()[self.issued()],
    {
        if self.next < self.plan.len() {
            Some(self.plan[self.next])
        } else {
            None
        }
    }

    /// The mutation of the current address succeeded: move past it. On a
    /// failure the caller simply stops driving the batch, so everything
    /// past the failed address goes unattempted.
    pub fn advance(&mut self)
        requires
            old(self).wf(),
            old(self).issued() < old(self).plan_seq().len(),
        ensures
            final(self).wf(),
            final(self).plan_seq() == old(self).plan_seq(),
            final(self).issued() == old(self).issued() + 1,
    {
        let n: usize = self.plan.len();
        assert(self.next < n);
        self.next += 1;
    }

    /// The addresses whose mutation has succeeded: the plan's prefix up to
    /// the cursor.
    pub fn completed(&self) -> (r: Vec<Address>)
        requires
            self.wf(),
        ensures
            r@ == self.plan_seq().take(self.issued()),
    {
        let mut r: Vec<Address> = Vec::new();
        let mut i: usize = 0;
        while i < self.next
            invariant
                0 <= i <= self.next,
                self.wf(),
                r@ == self.plan_seq().take(i as int),
            decreases self.next - i,
        {
            r.push(self.plan[i]);
            proof {
                assert(self.plan_seq().take(i + 1 as int) =~= self.plan_seq().take(i as int).push(
                    self.plan_seq()[i as int],
                ));
            }
            i += 1;
        }
        r
    }

    pub fn completed_count(&self) -> (r: usize)
        ensures
            r == self.issued(),
    {
        self.next
    }
}

proof fn lemma_filter_none<A>(s: Seq<A>, pred: spec_fn(A) -> bool)
    requires
        forall|i: int| 0 <= i < s.len() ==> !pred(s[i]),
    ensures
        s.filter(pred) =~= Seq::<A>::empty(),
    decreases s.len(),
{
    reveal(Seq::filter);
    if s.len() > 0 {
        lemma_filter_none(s.drop_last(), pred);
    }
}

proof fn lemma_filter_membership<A>(s: Seq<A>, pred: spec_fn(A) -> bool)
    ensures
        forall|a: A|
            #[trigger] s.filter(pred).contains(a) <==> s.contains(a) && pred(a),
    decreases s.len(),
{
    reveal(Seq::filter);
    if s.len() > 0 {
        lemma_filter_membership(s.drop_last(), pred);
        assert forall|a: A| s.contains(a) && pred(a) implies #[trigger] s.filter(pred).contains(
            a,
        ) by {
            let i = choose|i: int| 0 <= i < s.len() && s[i] == a;
            if i < s.len() - 1 {
                assert(s.drop_last()[i] == a);
                assert(s.drop_last().contains(a));
            }
        }
        assert forall|a: A| #[trigger] s.filter(pred).contains(a) implies s.contains(a) && pred(
            a,
        ) by {
            let f = s.filter(pred);
            let sub = s.drop_last().filter(pred);
            let j = choose|j: int| 0 <= j < f.len() && f[j] == a;
            if pred(s.last()) && j == f.len() - 1 {
                assert(s[s.len() - 1] == a);
            } else {
                assert(sub[j] == a);
                assert(sub.contains(a));
                let i = choose|i: int| 0 <= i < s.drop_last().len() && s.drop_last()[i] == a;
                assert(s[i] == a);
            }
        }
    }
}

/// Concatenation holds an element exactly when one of its halves does.
pub proof fn lemma_concat_contains<A>(x: Seq<A>, y: Seq<A>)
    ensures
        forall|a: A| #[trigger] (x + y).contains(a) <==> x.contains(a) || y.contains(a),
{
    assert forall|a: A| #[trigger] (x + y).contains(a) implies x.contains(a) || y.contains(
        a,
    ) by {
        let i = choose|i: int| 0 <= i < (x + y).len() && (x + y)[i] == a;
        if i < x.len() {
            assert(x[i] == a);
        } else {
            assert(y[i - x.len()] == a);
        }
    }
    assert forall|a: A| x.contains(a) || y.contains(a) implies #[trigger] (x + y).contains(
        a,
    ) by {
        if x.contains(a) {
            let i = choose|i: int| 0 <= i < x.len() && x[i] == a;
            assert((x + y)[i] == a);
        } else {
            let i = choose|i: int| 0 <= i < y.len() && y[i] == a;
            assert((x + y)[x.len() + i] == a);
        }
    }
}

/// What a successful block run leaves in the routing table — the old
/// entries plus exactly the planned additions — is the union of the
/// existing and the desired sets.
pub proof fn lemma_block_result(existing: Seq<Address>, desired: Seq<Address>)
    ensures
        forall|a: Address|
            #[trigger] (existing + spec_to_add(existing, desired)).contains(a)
                <==> existing.contains(a) || desired.contains(a),
{
    lemma_filter_membership(desired, |a: Address| !existing.contains(a));
    lemma_concat_contains(existing, spec_to_add(existing, desired));
}

/// A block plan adds an address exactly when it is desired and not already
/// present, and an unblock plan deletes one exactly when it is desired and
/// present: no other mutation is ever issued.
pub proof fn lemma_plan_membership(existing: Seq<Address>, desired: Seq<Address>)
    ensures
        forall|a: Address|
            #[trigger] spec_to_add(existing, desired).contains(a) <==> desired.contains(a)
                && !existing.contains(a),
        forall|a: Address|
            #[trigger] spec_to_delete(existing, desired).contains(a) <==> desired.contains(a)
                && existing.contains(a),
{
    lemma_filter_membership(desired, |a: Address| !existing.contains(a));
    lemma_filter_membership(desired, |a: Address| existing.contains(a));
}

/// Blocking is idempotent: once the routing table holds everything that was
/// desired (as it does after a successful block run with no intervening
/// change), a second block run has nothing to add.
pub proof fn lemma_block_idempotent(
    existing: Seq<Address>,
    desired: Seq<Address>,
    after: Seq<Address>,
)
    requires
        forall|a: Address|
            #[trigger] after.contains(a) <==> existing.contains(a) || desired.contains(a),
    ensures
        spec_to_add(after, desired) =~= Seq::<Address>::empty(),
{
    assert forall|i: int| 0 <= i < desired.len() implies after.contains(desired[i]) by {
        assert(desired.contains(desired[i]));
    }
    lemma_filter_none(desired, |a: Address| !after.contains(a));
}

/// Unblocking when no desired address is currently blocked issues no delete
/// operations at all.
pub proof fn lemma_unblock_noop(existing: Seq<Address>, desired: Seq<Address>)
    requires
        forall|a: Address| desired.contains(a) ==> !existing.contains(a),
    ensures
        spec_to_delete(existing, desired) =~= Seq::<Address>::empty(),
{
    assert forall|i: int| 0 <= i < desired.len() implies !existing.contains(desired[i]) by {
        assert(desired.contains(desired[i]));
    }
    lemma_filter_none(desired, |a: Address| existing.contains(a));
}

} // verus!
