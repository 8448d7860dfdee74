use vstd::prelude::*;
use vstd::multiset::Multiset;
use crate::heap::WireHeap;
use crate::primes::{
    divides, is_nth_prime, is_prime, lemma_first_prime,
    lemma_prime_count_monotonic, lemma_prime_divisor, prime_count,
};
use crate::wire::Wire;

verus! {

/// Primes are found only below this bound, so that neither the cursor nor a
/// marker's next multiple (less than twice the cursor) leaves `u64`.
pub const LIMIT: u64 = 0x8000_0000_0000_0000;

/// Some marker of `m` tracks the prime `p`.
pub open spec fn has_marker_for(m: Multiset<Wire>, p: nat) -> bool {
    exists|w: Wire| m.contains(w) && w.prm == p
}

/// What holds of each marker, with cursor `head` and every integer below
/// `lo` classified: its prime is one found below `lo`, its `val` is a
/// multiple of that prime no earlier than the prime itself, no multiple of
/// the prime lies in `head..val`, and `val` lags at most one behind `head`.
pub open spec fn marker_ok(w: Wire, head: nat, lo: nat) -> bool {
    &&& is_prime(w.prm as nat)
    &&& w.prm < lo
    &&& w.val % w.prm == 0
    &&& w.prm <= w.val
    &&& w.val < head + w.prm
    &&& w.val + 1 >= head
}

/// The markers `m` are in order with cursor `head`, and every prime below
/// `lo` has one.
pub open spec fn markers_ok(m: Multiset<Wire>, head: nat, lo: nat) -> bool {
    &&& forall|w: Wire| #[trigger] m.contains(w) ==> marker_ok(w, head, lo)
    &&& forall|p: nat| #[trigger] is_prime(p) && p < lo ==> has_marker_for(m, p)
}

/// The number of markers that have fallen behind the cursor `head`.
pub open spec fn lagging(m: Multiset<Wire>, head: u64) -> nat {
    m.filter(|w: Wire| w.val < head).len()
}

/// Advancing a marker that lags to a place at or past the cursor leaves one
/// marker less behind.
proof fn lemma_lagging_decreases(m: Multiset<Wire>, head: u64, w: Wire, w2: Wire)
    requires
        m.contains(w),
        w.val < head,
        w2.val >= head,
    ensures
        lagging(m.remove(w).insert(w2), head) < lagging(m, head),
{
    broadcast use vstd::multiset::group_multiset_axioms;

    let f = |x: Wire| x.val < head;
    let before = m.filter(f);
    let after = m.remove(w).insert(w2).filter(f);
    assert(before =~= after.insert(w));
}

/// Moving a marker that lags behind the cursor on by its prime keeps the
/// markers in order, and leaves one marker less behind.
proof fn lemma_advance(m: Multiset<Wire>, head: u64, lo: nat, v: Wire, w2: Wire)
    requires
        markers_ok(m, head as nat, lo),
        m.contains(v),
        v.val < head,
        w2.prm == v.prm,
        w2.val == v.val + v.prm,
    ensures
        markers_ok(m.remove(v).insert(w2), head as nat, lo),
        m.remove(v).insert(w2).len() == m.len(),
        lagging(m.remove(v).insert(w2), head) < lagging(m, head),
{
    broadcast use vstd::multiset::group_multiset_axioms;

    let m2 = m.remove(v).insert(w2);
    assert(marker_ok(v, head as nat, lo));
    assert(((v.prm as int) + (v.val as int)) % (v.prm as int) == (v.val as int) % (v.prm as int)) by {
        vstd::arithmetic::div_mod::lemma_mod_add_multiples_vanish(v.val as int, v.prm as int);
    }
    assert(marker_ok(w2, head as nat, lo));
    lemma_lagging_decreases(m, head, v, w2);
    assert forall|x: Wire| #[trigger] m2.contains(x) implies marker_ok(x, head as nat, lo) by {
        if x != w2 {
            assert(m.contains(x));
        }
    }
    assert forall|p: nat| #[trigger] is_prime(p) && p < lo implies has_marker_for(m2, p) by {
        let x = choose|x: Wire| m.contains(x) && x.prm == p;
        if x == v {
            assert(m2.contains(w2));
        } else {
            assert(m2.contains(x));
        }
    }
}

/// Moving the cursor past a number that is classified (below `lo`) and that
/// every marker has reached keeps the markers in order.
proof fn lemma_step(m: Multiset<Wire>, head: nat, lo: nat)
    requires
        markers_ok(m, head, lo),
        head < lo,
        forall|w: Wire| #[trigger] m.contains(w) ==> w.val >= head,
    ensures
        markers_ok(m, head + 1, lo),
{
    assert forall|x: Wire| #[trigger] m.contains(x) implies marker_ok(x, head + 1, lo) by {
        assert(marker_ok(x, head, lo));
    }
}

/// A cursor `c` that every marker has passed, with a marker for each prime
/// below it, is a prime: a prime divisor below `c` would have a marker whose
/// `val` lies strictly between two of its multiples.
proof fn lemma_cursor_prime(m: Multiset<Wire>, c: nat)
    requires
        c >= 2,
        forall|w: Wire| #[trigger] m.contains(w) ==> marker_ok(w, c, c) && w.val > c,
        forall|p: nat| #[trigger] is_prime(p) && p < c ==> has_marker_for(m, p),
    ensures
        is_prime(c),
{
    if !is_prime(c) {
        lemma_prime_divisor(c);
        let p = choose|p: nat| is_prime(p) && p <= c && #[trigger] divides(p, c);
        assert(has_marker_for(m, p));
        let w = choose|w: Wire| m.contains(w) && w.prm == p;
        assert(marker_ok(w, c, c));
        let v = w.val as nat;
        assert(false) by (nonlinear_arith)
            requires
                p > 0,
                c % p == 0,
                v % p == 0,
                c < v,
                v < c + p,
        {
            let a = c / p;
            let b = v / p;
            assert(c == p * a);
            assert(v == p * b);
            assert(a < b);
            assert(p * b >= p * (a + 1));
        }
    }
}

/// A cursor that a marker for a smaller prime lands on is composite.
proof fn lemma_cursor_composite(w: Wire, c: nat)
    requires
        marker_ok(w, c, c),
        w.val == c,
    ensures
        !is_prime(c),
{
    assert(divides(w.prm as nat, c));
}

/// An incremental sieve: it hands out the primes one at a time, in
/// increasing order, without a bound fixed in advance.
#[derive(Debug)]
pub struct Siev {
    head: u64,
    wires: WireHeap,
}

impl Siev {
    /// The number of primes handed out so far: one marker stands for each.
    pub closed spec fn count(&self) -> nat {
        self.wires@.len()
    }

    /// Every integer below this has been classified as prime or composite.
    /// Right after the first prime, 2, the cursor still stands on it.
    pub closed spec fn frontier(&self) -> nat {
        if self.wires@.len() == 1 && self.head == 2 {
            3
        } else {
            self.head as nat
        }
    }

    /// The sieve's invariant: every prime below the frontier, and no other
    /// number, has a marker, each marker is in order, and the primes handed
    /// out are exactly those below the frontier.
    pub closed spec fn wf(&self) -> bool {
        &&& self.wires.wf()
        &&& self.count() > 0 ==> {
            &&& self.head >= 2
            &&& self.count() == prime_count(self.frontier())
            &&& markers_ok(self.wires@, self.head as nat, self.frontier())
        }
    }

    /// A fresh sieve, which has handed out nothing yet.
    pub fn new() -> (r: Self)
        ensures
            r.wf(),
            r.count() == 0,
    {
        Siev { head: 0, wires: WireHeap::new() }
    }

    /// Hands out the next prime: the prime whose index is the number handed
    /// out before. That prime must lie below `LIMIT`, past which the
    /// arithmetic would leave `u64`, and its marker must fit in the heap.
    pub fn next_prime(&mut self) -> (r: u64)
        requires
            old(self).wf(),
            old(self).count() < prime_count(LIMIT as nat),
            old(self).count() < usize::MAX,
        ensures
            final(self).wf(),
            final(self).count() == old(self).count() + 1,
            is_nth_prime(old(self).count(), r as nat),
    {
        let ghost k = self.count();
        let mut result: u64 = 0;
        proof {
            if k > 0 && self.frontier() >= LIMIT {
                lemma_prime_count_monotonic(LIMIT as nat, self.frontier());
            }
        }
        loop
            invariant_except_break
                self.wf(),
                self.count() == k,
                k < prime_count(LIMIT as nat),
                k > 0 ==> self.head < LIMIT,
            ensures
                self.wires.wf(),
                self.count() == k,
                is_nth_prime(k, result as nat),
                result < LIMIT,
                self.head == result + 1 || (k == 0 && self.head == 2 && result == 2),
                forall|w: Wire| #[trigger]
                    self.wires@.contains(w) ==> marker_ok(w, (result + 1) as nat, result as nat),
                forall|p: nat| #[trigger]
                    is_prime(p) && p < result ==> has_marker_for(self.wires@, p),
            decreases LIMIT - self.head, lagging(self.wires@, self.head),
        {
            match self.wires.peek() {
                None => {
                    self.head = 2;
                    result = 2;
                    proof {
                        lemma_first_prime();
                    }
                    break;
                },
                Some(v) => {
                    proof {
                        assert(marker_ok(v, self.head as nat, self.frontier()));
                        if self.frontier() != self.head {
                            assert(v.val == 2);
                        }
                    }
                    if v.val < self.head {
                        let w2 = Wire { val: v.val + v.prm, prm: v.prm };
                        proof {
                            lemma_advance(self.wires@, self.head, self.frontier(), v, w2);
                        }
                        self.wires.replace_top(w2);
                    } else if v.val == self.head {
                        let ghost lo = self.frontier();
                        proof {
                            if lo == self.head {
                                lemma_cursor_composite(v, self.head as nat);
                                assert(prime_count((self.head + 1) as nat) == prime_count(self.head as nat));
                                lemma_step(self.wires@, self.head as nat, (self.head + 1) as nat);
                            } else {
                                lemma_step(self.wires@, self.head as nat, lo);
                            }
                            if self.head + 1 >= LIMIT {
                                lemma_prime_count_monotonic(LIMIT as nat, (self.head + 1) as nat);
                            }
                        }
                        self.head = self.head + 1;
                    } else {
                        proof {
                            lemma_cursor_prime(self.wires@, self.head as nat);
                        }
                        result = self.head;
                        self.head = self.head + 1;
                        break;
                    }
                },
            }
        }
        proof {
            assert(prime_count((result + 1) as nat) == k + 1);
        }
        let ghost m = self.wires@;
        let w = Wire { val: result, prm: result };
        self.wires.push(w);
        proof {
            broadcast use vstd::multiset::group_multiset_axioms;

            assert(self.frontier() == result + 1);
            assert forall|x: Wire| #[trigger]
                self.wires@.contains(x) implies marker_ok(x, self.head as nat, self.frontier()) by {
                if x != w {
                    assert(m.contains(x));
                }
            }
            assert forall|p: nat| #[trigger]
                is_prime(p) && p < self.frontier() implies has_marker_for(self.wires@, p) by {
                if p == result {
                    assert(self.wires@.contains(w));
                } else {
                    let x = choose|x: Wire| m.contains(x) && x.prm == p;
                    assert(self.wires@.contains(x));
                }
            }
        }
        result
    }

    /// The sieve read as a sequence that never ends: each call yields the
    /// value that `next_prime` would, in the same order, and never `None`.
    pub fn next(&mut self) -> (r: Option<u64>)
        requires
            old(self).wf(),
            old(self).count() < prime_count(LIMIT as nat),
            old(self).count() < usize::MAX,
        ensures
            final(self).wf(),
            final(self).count() == old(self).count() + 1,
            r is Some,
            r matches Some(p) && is_nth_prime(old(self).count(), p as nat),
    {
        Some(self.next_prime())
    }

    /// The prime of index `n`, counting from zero (so 2 for 0, 3 for 1), from
    /// a sieve of its own. That prime must lie below `LIMIT`.
    pub fn nth(n: usize) -> (r: u64)
        requires
            n < prime_count(LIMIT as nat),
            n < usize::MAX,
        ensures
            is_nth_prime(n as nat, r as nat),
    {
        let mut siev = Siev::new();
        let mut r: u64 = siev.next_prime();
        let mut i: usize = 0;
        while i < n
            invariant
                i <= n,
                n < prime_count(LIMIT as nat),
                n < usize::MAX,
                siev.wf(),
                siev.count() == i + 1,
                is_nth_prime(i as nat, r as nat),
            decreases n - i,
        {
            r = siev.next_prime();
            i = i + 1;
        }
        r
    }
}

impl Default for Siev {
    /// A fresh sieve, as `new` makes it.
    fn default() -> (r: Self)
        ensures
            r.wf(),
            r.count() == 0,
    {
        Siev::new()
    }
}

} // verus!
