//! The van Emde Boas set itself.
//!
//! A [`vEB`] value represents a set of integers drawn from `0..universe_size`.
//! The minimum is cached at the node and never stored recursively; every
//! other element is also routed into the cluster structure, and the summary
//! tracks exactly which clusters are non-empty. The abstract model of a node
//! is the set of its members, `self@: Set<int>`.

use crate::split::{
    lemma_join_pair, lemma_pair_order, lemma_split_value, lemma_universe_fits,
    lemma_universe_pow2, lemma_universe_split, log2, lower_sqrt, spec_high, spec_index, spec_low,
    upper_sqrt, valid_universe,
};
use vstd::arithmetic::power2::{is_pow2, lemma_pow2_strictly_increases, lemma_pow2_unfold, pow2};
use vstd::prelude::*;

verus! {

/// The error conditions of the set: an invalid universe size at
/// construction, or an out-of-range value handed to `insert`.
#[derive(Debug, Clone, Copy, PartialEq, Eq, Structural)]
pub enum VebError {
    /// The requested universe size is below 2 or not a power of two.
    InvalidUniverse,
    /// The value lies at or above the universe size.
    OutOfRange,
}

/// A van Emde Boas set over the universe `0..universe_size`.
///
/// `universe_size` must be a power of two no smaller than 2. At
/// `universe_size == 2` the node holds at most `{0, 1}` directly in
/// `min`/`max`; above that it splits the universe into `upper_sqrt`
/// clusters of `lower_sqrt` values each, plus a summary of the non-empty
/// cluster indices.
#[allow(non_camel_case_types)]
#[derive(Debug)]
pub struct vEB {
    universe_size: usize,
    min: Option<usize>,
    max: Option<usize>,
    summary: Option<Box<vEB>>,
    clusters: Vec<vEB>,
    element_count: usize,
}

/// The total element count of a sequence of clusters.
pub closed spec fn sum_counts(s: Seq<vEB>) -> int
    decreases s.len(),
{
    if s.len() == 0 {
        0
    } else {
        sum_counts(s.drop_last()) + s.last().spec_size()
    }
}

impl vEB {
    /// The universe size as a mathematical integer.
    pub closed spec fn spec_universe(self) -> int {
        self.universe_size as int
    }

    /// The stored element count as a mathematical integer.
    pub closed spec fn spec_size(self) -> int {
        self.element_count as int
    }

    /// The cached minimum, as an integer; meaningful only when non-empty.
    spec fn smin(self) -> int {
        self.min->0 as int
    }

    /// The cached maximum, as an integer; meaningful only when non-empty.
    spec fn smax(self) -> int {
        self.max->0 as int
    }

    /// Membership: `x` is cached as `min` or `max`, or stored at offset
    /// `spec_low(u, x)` of cluster `spec_high(u, x)`.
    pub closed spec fn member(self, x: int) -> bool
        decreases self,
    {
        let u = self.spec_universe();
        ||| (self.min is Some && self.smin() == x)
        ||| (self.max is Some && self.smax() == x)
        ||| {
            let h = spec_high(u, x);
            &&& 0 <= x < u
            &&& 0 <= h < self.clusters.len()
            &&& self.clusters[h].member(spec_low(u, x))
        }
    }

    /// Structural well-formedness: the invariant every operation preserves.
    ///
    /// - the universe size is a power of two, at least 2;
    /// - `min`/`max` are absent exactly when the set is empty, and otherwise
    ///   bracket the universe range;
    /// - at universe 2 there is no substructure and the count is read off
    ///   `min`/`max` directly;
    /// - above universe 2: the summary and every cluster are well-formed
    ///   nodes of the split universe sizes; the summary holds exactly the
    ///   non-empty cluster indices; every recursively stored value lies
    ///   strictly above `min` and at or below `max` (so the minimum is never
    ///   stored below); `max` itself is stored below unless it equals `min`;
    ///   and the count is one (for `min`) plus the cluster counts.
    pub closed spec fn wf(self) -> bool
        decreases self,
    {
        let u = self.spec_universe();
        &&& valid_universe(u)
        &&& (self.min is None <==> self.element_count == 0)
        &&& (self.max is None <==> self.element_count == 0)
        &&& (self.min is Some ==> 0 <= self.smin() <= self.smax() < u)
        &&& if u == 2 {
            &&& self.summary is None
            &&& self.clusters.len() == 0
            &&& self.spec_size() == if self.min is None {
                0int
            } else if self.smin() == self.smax() {
                1int
            } else {
                2int
            }
        } else {
            let up = upper_sqrt(u);
            let lo = lower_sqrt(u);
            &&& self.summary is Some
            &&& (*self.summary->0).spec_universe() == up
            &&& (*self.summary->0).wf()
            &&& self.clusters.len() == up
            &&& (forall|i: int|
                0 <= i < up ==> (#[trigger] self.clusters[i]).spec_universe() == lo)
            &&& (forall|i: int| 0 <= i < up ==> (#[trigger] self.clusters[i]).wf())
            &&& (forall|i: int|
                0 <= i < up ==> ((*self.summary->0).member(i) <==> (
                #[trigger] self.clusters[i]).spec_size() != 0))
            &&& (self.min is Some ==> (forall|i: int, j: int|
                0 <= i < up && #[trigger] self.clusters[i].member(j) ==> self.smin()
                    < spec_index(u, i, j) <= self.smax()))
            &&& (self.min is None ==> (forall|i: int|
                0 <= i < up ==> (#[trigger] self.clusters[i]).spec_size() == 0))
            &&& (self.min is Some && self.smin() != self.smax() ==> {
                let h = spec_high(u, self.smax());
                &&& 0 <= h < up
                &&& self.clusters[h].member(spec_low(u, self.smax()))
            })
            &&& self.spec_size() == if self.min is None {
                0int
            } else {
                1 + sum_counts(self.clusters@)
            }
        }
    }
}

impl View for vEB {
    type V = Set<int>;

    /// The abstract contents of the set.
    open spec fn view(&self) -> Set<int> {
        Set::new(|x: int| self.member(x))
    }
}

impl vEB {
    /// An empty node has no members at all.
    proof fn lemma_empty_no_member(self, x: int)
        requires
            self.wf(),
            self.spec_size() == 0,
        ensures
            !self.member(x),
        decreases self.spec_universe(),
    {
        let u = self.spec_universe();
        if u > 2 {
            lemma_universe_split(u);
            let h = spec_high(u, x);
            if 0 <= x < u && 0 <= h < self.clusters.len() {
                self.clusters[h].lemma_empty_no_member(spec_low(u, x));
            }
        }
    }

    /// Every member lies in the universe range and between `min` and `max`;
    /// in particular a member forces the node to be non-empty.
    proof fn lemma_member_bounds(self, x: int)
        requires
            self.wf(),
            self.member(x),
        ensures
            0 <= x < self.spec_universe(),
            self.min is Some,
            self.max is Some,
            self.smin() <= x <= self.smax(),
    {
        let u = self.spec_universe();
        if self.min is None {
            self.lemma_empty_no_member(x);
        }
        if !(self.smin() == x || self.smax() == x) {
            let h = spec_high(u, x);
            assert(self.clusters[h].member(spec_low(u, x)));
            lemma_universe_split(u);
            lemma_split_value(u, x);
            assert(spec_index(u, h, spec_low(u, x)) == x);
        }
    }

    /// The cached minimum and maximum are themselves members.
    proof fn lemma_extremes_member(self)
        requires
            self.wf(),
            self.min is Some,
        ensures
            self.member(self.smin()),
            self.member(self.smax()),
    {
    }

    /// A node is non-empty exactly when it caches a minimum, and then both
    /// extremes are members.
    proof fn lemma_nonempty(self)
        requires
            self.wf(),
        ensures
            self.spec_size() != 0 <==> self.min is Some,
            self.min is Some ==> self.member(self.smin()) && self.member(self.smax())
                && self@.contains(self.smin()) && self@.contains(self.smax()),
    {
        if self.min is Some {
            self.lemma_extremes_member();
        }
    }

    /// Above universe 2, a member other than the cached minimum is stored in
    /// the cluster structure.
    proof fn lemma_member_below(self, x: int)
        requires
            self.wf(),
            self.spec_universe() > 2,
            self.member(x),
            !(self.min is Some && self.smin() == x),
        ensures
            0 <= x < self.spec_universe(),
            0 <= spec_high(self.spec_universe(), x) < upper_sqrt(self.spec_universe()),
            self.clusters[spec_high(self.spec_universe(), x)].member(
                spec_low(self.spec_universe(), x),
            ),
    {
        let u = self.spec_universe();
        self.lemma_member_bounds(x);
        if self.smax() == x {
            assert(self.smin() != self.smax());
        } else {
            lemma_universe_split(u);
            lemma_split_value(u, x);
        }
    }

    /// Conversely, a value stored in its cluster is a member.
    proof fn lemma_below_member(self, x: int)
        requires
            self.wf(),
            self.spec_universe() > 2,
            0 <= x < self.spec_universe(),
            self.clusters[spec_high(self.spec_universe(), x)].member(
                spec_low(self.spec_universe(), x),
            ),
        ensures
            self.member(x),
    {
        let u = self.spec_universe();
        lemma_universe_split(u);
        lemma_split_value(u, x);
    }
}

impl vEB {
    /// Whether `u` is a power of two, by repeated halving.
    fn is_pow2_exec(u: usize) -> (r: bool)
        requires
            u >= 1,
        ensures
            r == is_pow2(u as int),
    {
        let mut v = u;
        while v > 1
            invariant
                v >= 1,
                is_pow2(u as int) == is_pow2(v as int),
            decreases v,
        {
            if v % 2 == 1 {
                proof {
                    reveal(is_pow2);
                }
                return false;
            }
            proof {
                reveal(is_pow2);
            }
            v = v / 2;
        }
        proof {
            reveal(is_pow2);
        }
        true
    }

    /// Computes `(upper_sqrt(u), lower_sqrt(u))` for a splittable universe.
    #[verifier::loop_isolation(false)]
    fn split_universe(u: usize) -> (r: (usize, usize))
        requires
            valid_universe(u as int),
            u > 2,
        ensures
            r.0 as int == upper_sqrt(u as int),
            r.1 as int == lower_sqrt(u as int),
    {
        proof {
            lemma_universe_pow2(u as int);
            lemma_universe_split(u as int);
            lemma_universe_fits(u as int);
            vstd::arithmetic::power2::lemma2_to64();
        }
        let ghost gk: nat = log2(u as int);
        let mut k: usize = 0;
        let mut p: usize = 1;
        while p < u
            invariant
                p >= 1,
                p as nat == pow2(k as nat),
                k as nat <= gk,
                p <= u,
            decreases u - p,
        {
            proof {
                if k as nat == gk {
                    assert(p == u);
                }
                let k1: nat = (k + 1) as nat;
                assert(k1 <= gk);
                if k1 < gk {
                    lemma_pow2_strictly_increases(k1, gk);
                }
                lemma_pow2_unfold(k1);
                assert(pow2(k1) <= pow2(gk));
            }
            p = p * 2;
            k = k + 1;
        }
        proof {
            assert(p == u);
            if (k as nat) < gk {
                lemma_pow2_strictly_increases(k as nat, gk);
            }
            assert(k as nat == gk);
        }
        let half = k / 2;
        let mut i: usize = 0;
        let mut lower: usize = 1;
        while i < half
            invariant
                i <= half,
                lower as nat == pow2(i as nat),
            decreases half - i,
        {
            proof {
                let i1: nat = (i + 1) as nat;
                lemma_pow2_unfold(i1);
                if i1 < gk {
                    lemma_pow2_strictly_increases(i1, gk);
                }
            }
            lower = lower * 2;
            i = i + 1;
        }
        assert(half as nat == gk / 2);
        assert(lower as int == lower_sqrt(u as int));
        let upper = u / lower;
        proof {
            vstd::arithmetic::div_mod::lemma_fundamental_div_mod_converse(
                u as int,
                lower as int,
                upper_sqrt(u as int),
                0,
            );
        }
        (upper, lower)
    }

    /// Builds an empty node of a valid universe size, with all of its
    /// substructure allocated eagerly.
    #[verifier::loop_isolation(false)]
    fn make(u: usize) -> (t: vEB)
        requires
            valid_universe(u as int),
        ensures
            t.wf(),
            t.spec_universe() == u as int,
            t.spec_size() == 0,
            forall|x: int| !t.member(x),
        decreases u,
    {
        let t: vEB;
        if u == 2 {
            t = vEB {
                universe_size: u,
                min: None,
                max: None,
                summary: None,
                clusters: Vec::new(),
                element_count: 0,
            };
        } else {
            proof {
                lemma_universe_split(u as int);
            }
            let (up, lo) = Self::split_universe(u);
            let s = Box::new(Self::make(up));
            let mut clusters: Vec<vEB> = Vec::new();
            let mut i: usize = 0;
            while i < up
                invariant
                    i <= up,
                    clusters.len() == i,
                    forall|j: int|
                        0 <= j < i ==> (#[trigger] clusters[j]).wf()
                            && clusters[j].spec_universe() == lo as int
                            && clusters[j].spec_size() == 0,
                decreases up - i,
            {
                clusters.push(Self::make(lo));
                i = i + 1;
            }
            t = vEB {
                universe_size: u,
                min: None,
                max: None,
                summary: Some(s),
                clusters,
                element_count: 0,
            };
            proof {
                assert forall|j: int| 0 <= j < up implies !(*t.summary->0).member(j) by {
                    (*t.summary->0).lemma_empty_no_member(j);
                }
            }
        }
        proof {
            assert forall|x: int| !t.member(x) by {
                t.lemma_empty_no_member(x);
            }
        }
        t
    }

    /// Creates an empty set over the universe `0..u`.
    ///
    /// Fails with [`VebError::InvalidUniverse`] exactly when `u` is below 2
    /// or not a power of two; a failed construction hands back no structure
    /// at all.
    pub fn new(u: usize) -> (r: Result<vEB, VebError>)
        ensures
            match r {
                Ok(t) => {
                    &&& valid_universe(u as int)
                    &&& t.wf()
                    &&& t@ == Set::<int>::empty()
                    &&& t.spec_universe() == u as int
                    &&& t.spec_size() == 0
                },
                Err(e) => {
                    &&& e == VebError::InvalidUniverse
                    &&& !valid_universe(u as int)
                },
            },
    {
        if u < 2 {
            return Err(VebError::InvalidUniverse);
        }
        if !Self::is_pow2_exec(u) {
            return Err(VebError::InvalidUniverse);
        }
        let t = Self::make(u);
        proof {
            assert(t@ =~= Set::<int>::empty());
        }
        Ok(t)
    }

    /// The universe size this set was constructed with.
    pub fn universe_size(&self) -> (r: usize)
        ensures
            r as int == self.spec_universe(),
    {
        self.universe_size
    }

    /// The number of elements currently stored: exactly the cardinality of
    /// the abstract set.
    pub fn size(&self) -> (r: usize)
        requires
            self.wf(),
        ensures
            r as int == self.spec_size(),
            self@.finite(),
            r as int == self@.len(),
    {
        proof {
            self.lemma_size_is_cardinality();
        }
        self.element_count
    }

    /// Whether the set holds no element.
    pub fn is_empty(&self) -> (r: bool)
        requires
            self.wf(),
        ensures
            r == (self.spec_size() == 0),
            r == (self@ == Set::<int>::empty()),
    {
        let r = self.element_count == 0;
        proof {
            if r {
                assert forall|x: int| !self.member(x) by {
                    self.lemma_empty_no_member(x);
                }
                assert(self@ =~= Set::<int>::empty());
            } else {
                self.lemma_extremes_member();
                assert(self@.contains(self.smin()));
            }
        }
        r
    }

    /// The smallest element, or `None` when the set is empty.
    pub fn min(&self) -> (r: Option<usize>)
        requires
            self.wf(),
        ensures
            match r {
                Some(m) => self@.contains(m as int) && (forall|y: int|
                    self@.contains(y) ==> m as int <= y),
                None => self@ == Set::<int>::empty(),
            },
    {
        proof {
            match self.min {
                Some(m) => {
                    self.lemma_extremes_member();
                    assert forall|y: int| self@.contains(y) implies m as int <= y by {
                        self.lemma_member_bounds(y);
                    }
                },
                None => {
                    assert forall|x: int| !self.member(x) by {
                        self.lemma_empty_no_member(x);
                    }
                    assert(self@ =~= Set::<int>::empty());
                },
            }
        }
        self.min
    }

    /// The largest element, or `None` when the set is empty.
    pub fn max(&self) -> (r: Option<usize>)
        requires
            self.wf(),
        ensures
            match r {
                Some(m) => self@.contains(m as int) && (forall|y: int|
                    self@.contains(y) ==> y <= m as int),
                None => self@ == Set::<int>::empty(),
            },
    {
        proof {
            match self.max {
                Some(m) => {
                    assert(self.min is Some);
                    self.lemma_extremes_member();
                    assert forall|y: int| self@.contains(y) implies y <= m as int by {
                        self.lemma_member_bounds(y);
                    }
                },
                None => {
                    assert forall|x: int| !self.member(x) by {
                        self.lemma_empty_no_member(x);
                    }
                    assert(self@ =~= Set::<int>::empty());
                },
            }
        }
        self.max
    }

    /// The smallest element, or `None` when the set is empty.
    pub fn minimum(&self) -> (r: Option<usize>)
        requires
            self.wf(),
        ensures
            match r {
                Some(m) => self@.contains(m as int) && (forall|y: int|
                    self@.contains(y) ==> m as int <= y),
                None => self@ == Set::<int>::empty(),
            },
    {
        self.min()
    }

    /// The largest element, or `None` when the set is empty.
    pub fn maximum(&self) -> (r: Option<usize>)
        requires
            self.wf(),
        ensures
            match r {
                Some(m) => self@.contains(m as int) && (forall|y: int|
                    self@.contains(y) ==> y <= m as int),
                None => self@ == Set::<int>::empty(),
            },
    {
        self.max()
    }

    /// Whether `x` is in the set. Out-of-range values are simply absent.
    pub fn contains(&self, x: &usize) -> (r: bool)
        requires
            self.wf(),
        ensures
            r == self@.contains(*x as int),
        decreases self.spec_universe(),
    {
        let u = self.universe_size;
        let xv = *x;
        if xv >= u {
            proof {
                if self.member(xv as int) {
                    self.lemma_member_bounds(xv as int);
                }
            }
            return false;
        }
        match self.min {
            Some(mn) => {
                if xv == mn {
                    return true;
                }
            },
            None => {},
        }
        match self.max {
            Some(mx) => {
                if xv == mx {
                    return true;
                }
            },
            None => {},
        }
        if u == 2 {
            return false;
        }
        proof {
            lemma_universe_split(u as int);
            lemma_split_value(u as int, xv as int);
        }
        let lo = self.cluster_size();
        let h = xv / lo;
        let l = xv % lo;
        self.clusters[h].contains(&l)
    }

    /// Inserts `x`, known to be in range, and reports whether the set grew.
    #[verifier::rlimit(100)]
    fn insert_in(&mut self, x: usize) -> (added: bool)
        requires
            old(self).wf(),
            (x as int) < old(self).spec_universe(),
        ensures
            final(self).wf(),
            final(self).spec_universe() == old(self).spec_universe(),
            added == !old(self).member(x as int),
            forall|y: int|
                #![trigger final(self).member(y)]
                #![trigger old(self).member(y)]
                final(self).member(y) == (old(self).member(y) || y == x as int),
            final(self).spec_size() == old(self).spec_size() + (if added {
                1int
            } else {
                0int
            }),
        decreases old(self).spec_universe(),
    {
        let ghost prev = *self;
        let ghost ui = old(self).spec_universe();
        let u = self.universe_size;
        match self.min {
            None => {
                proof {
                    assert forall|y: int| !prev.member(y) by {
                        prev.lemma_empty_no_member(y);
                    }
                }
                self.min = Some(x);
                self.max = Some(x);
                self.element_count = 1;
                proof {
                    if ui > 2 {
                        lemma_universe_split(ui);
                        lemma_sum_counts_zero(self.clusters@);
                        assert forall|i: int, j: int|
                            0 <= i < upper_sqrt(ui) && #[trigger] self.clusters[i].member(j)
                                implies self.smin() < spec_index(ui, i, j) <= self.smax() by {
                            self.clusters[i].lemma_empty_no_member(j);
                        }
                    }
                    assert forall|y: int|
                        #![trigger self.member(y)]
                        #![trigger prev.member(y)]
                        self.member(y) == (prev.member(y) || y == x as int) by {
                        if y != x as int && self.member(y) {
                            let h = spec_high(ui, y);
                            if 0 <= y < ui && 0 <= h < self.clusters.len() {
                                self.clusters[h].lemma_empty_no_member(spec_low(ui, y));
                            }
                        }
                    }
                }
                true
            },
            Some(mn) => {
                if x == mn {
                    return false;
                }
                let mx = self.max.unwrap();
                if x == mx {
                    return false;
                }
                if u == 2 {
                    proof {
                        assert(mn == mx);
                    }
                    if x < mn {
                        self.min = Some(x);
                    } else {
                        self.max = Some(x);
                    }
                    self.element_count = self.element_count + 1;
                    proof {
                        assert forall|y: int|
                            #![trigger self.member(y)]
                            #![trigger prev.member(y)]
                            self.member(y) == (prev.member(y) || y == x as int) by {}
                    }
                    true
                } else {
                    proof {
                        lemma_universe_split(ui);
                        crate::split::lemma_universe_below_max(ui);
                        prev.lemma_size_is_cardinality();
                    }
                    let ghost up = upper_sqrt(ui);
                    let ghost w = lower_sqrt(ui);
                    let lo = self.cluster_size();
                    let mut v = x;
                    if x < mn {
                        self.min = Some(x);
                        v = mn;
                    }
                    let h = v / lo;
                    let l = v % lo;
                    proof {
                        lemma_split_value(ui, v as int);
                        if prev.member(x as int) {
                            prev.lemma_member_bounds(x as int);
                        }
                    }
                    let mut cl = self.clusters.remove(h);
                    let ghost cl0 = cl;
                    if cl.element_count == 0 {
                        let mut s = self.summary.take().unwrap();
                        let _summary_grew = (&mut *s).insert_in(h);
                        self.summary = Some(s);
                    }
                    let added = cl.insert_in(l);
                    self.clusters.insert(h, cl);
                    proof {
                        lemma_remove_insert(prev.clusters@, h as int, cl);
                        assert(self.clusters@ =~= prev.clusters@.update(h as int, cl));
                        lemma_sum_counts_update(prev.clusters@, h as int, cl);
                    }
                    if added {
                        self.element_count = self.element_count + 1;
                    }
                    if x > mx {
                        self.max = Some(x);
                    }
                    proof {
                        let xi = x as int;
                        let vi = v as int;
                        let hi = h as int;
                        let li = l as int;
                        let nmn = self.smin();
                        let nmx = self.smax();
                        // the pushed value was not already in its cluster unless
                        // it was an interior duplicate
                        if x < mn {
                            if cl0.member(li) {
                                assert(prev.smin() < spec_index(ui, hi, li));
                            }
                            assert(added);
                        } else if x > mx {
                            if cl0.member(li) {
                                assert(spec_index(ui, hi, li) <= prev.smax());
                            }
                            assert(added);
                        }
                        // `added` matches membership of `x` in the old set
                        if x < mn || x > mx {
                            if prev.member(xi) {
                                prev.lemma_member_bounds(xi);
                            }
                            assert(added == !prev.member(xi));
                        } else {
                            if prev.member(xi) {
                                prev.lemma_member_below(xi);
                                assert(cl0.member(li));
                            }
                            if cl0.member(li) {
                                prev.lemma_below_member(xi);
                            }
                            assert(added == !prev.member(xi));
                        }
                        // well-formedness of the rebuilt node
                        assert(cl.spec_size() == cl0.spec_size() + (if added {
                            1int
                        } else {
                            0int
                        }));
                        assert(cl.spec_size() != 0) by {
                            if !added {
                                cl0.lemma_member_bounds(li);
                                cl0.lemma_nonempty();
                                assert(cl0.spec_size() != 0);
                            }
                        }
                        assert forall|i: int|
                            0 <= i < up implies ((*self.summary->0).member(i) <==> (
                        #[trigger] self.clusters[i]).spec_size() != 0) by {
                            if i != hi {
                                assert(self.clusters[i] == prev.clusters[i]);
                                assert((*self.summary->0).member(i) <==> (*prev.summary->0).member(
                                    i,
                                ));
                            }
                        }
                        assert forall|i: int, j: int|
                            0 <= i < up && #[trigger] self.clusters[i].member(j) implies nmn
                                < spec_index(ui, i, j) <= nmx by {
                            if i == hi && j == li {
                                assert(spec_index(ui, hi, li) == vi);
                            } else {
                                assert(prev.clusters[i].member(j));
                                assert(prev.smin() < spec_index(ui, i, j) <= prev.smax());
                            }
                        }
                        // the maximum is still routed into its cluster
                        assert(nmn != nmx ==> {
                            let hm = spec_high(ui, nmx);
                            &&& 0 <= hm < up
                            &&& self.clusters[hm].member(spec_low(ui, nmx))
                        }) by {
                            if nmn != nmx {
                                if x > mx {
                                    assert(cl.member(li));
                                    assert(self.clusters[hi].member(li));
                                    lemma_split_value(ui, vi);
                                } else if x < mn && prev.smin() == prev.smax() {
                                    assert(vi == nmx);
                                    assert(self.clusters[hi].member(li));
                                    lemma_split_value(ui, vi);
                                } else {
                                    let hm = spec_high(ui, nmx);
                                    let lm = spec_low(ui, nmx);
                                    assert(prev.clusters[hm].member(lm));
                                    if hm == hi {
                                        assert(cl.member(lm));
                                    }
                                    assert(self.clusters[hm].member(lm));
                                }
                            }
                        }
                        assert(self.wf());
                        // pointwise membership of the rebuilt node
                        assert forall|y: int|
                            #![trigger self.member(y)]
                            #![trigger prev.member(y)]
                            self.member(y) == (prev.member(y) || y == xi) by {
                            let hy = spec_high(ui, y);
                            let ly = spec_low(ui, y);
                            if self.member(y) {
                                if y == nmn || y == nmx {
                                    assert(y == xi || y == prev.smin() || y == prev.smax());
                                } else {
                                    self.lemma_member_below(y);
                                    if hy == hi {
                                        if ly == li {
                                            lemma_split_value(ui, vi);
                                            lemma_split_value(ui, y);
                                            assert(y == vi);
                                            assert(y == xi || y == prev.smin());
                                        } else {
                                            assert(cl0.member(ly));
                                            prev.lemma_below_member(y);
                                        }
                                    } else {
                                        assert(prev.clusters[hy].member(ly));
                                        prev.lemma_below_member(y);
                                    }
                                }
                            }
                            if prev.member(y) {
                                if y == prev.smin() && x < mn {
                                    assert(vi == y);
                                    lemma_split_value(ui, vi);
                                    assert(cl.member(li));
                                    assert(self.clusters[hi].member(li));
                                    assert(self.member(y));
                                } else if y == prev.smin() || y == prev.smax() {
                                    assert(self.member(y));
                                } else {
                                    prev.lemma_member_below(y);
                                    if hy == hi {
                                        assert(cl.member(ly));
                                    } else {
                                        assert(self.clusters[hy].member(ly));
                                    }
                                    self.lemma_below_member(y);
                                }
                            }
                            if y == xi {
                                if x < mn {
                                    assert(self.member(y));
                                } else {
                                    lemma_split_value(ui, vi);
                                    assert(cl.member(li));
                                    self.lemma_below_member(y);
                                }
                            }
                        }
                    }
                    added
                }
            },
        }
    }

    /// Inserts `x` into the set.
    ///
    /// Returns `Ok(true)` when `x` was newly inserted, `Ok(false)` when it
    /// was already present (a no-op that leaves the size unchanged), and
    /// `Err(VebError::OutOfRange)` when `x` lies outside the universe.
    pub fn insert(&mut self, x: usize) -> (r: Result<bool, VebError>)
        requires
            old(self).wf(),
        ensures
            final(self).wf(),
            final(self).spec_universe() == old(self).spec_universe(),
            match r {
                Ok(added) => {
                    &&& (x as int) < old(self).spec_universe()
                    &&& added == !old(self)@.contains(x as int)
                    &&& final(self)@ == old(self)@.insert(x as int)
                    &&& final(self).spec_size() == old(self).spec_size() + (if added {
                        1int
                    } else {
                        0int
                    })
                    &&& (!added ==> final(self)@ == old(self)@)
                },
                Err(e) => {
                    &&& e == VebError::OutOfRange
                    &&& (x as int) >= old(self).spec_universe()
                    &&& *final(self) == *old(self)
                },
            },
    {
        if x >= self.universe_size {
            return Err(VebError::OutOfRange);
        }
        let added = self.insert_in(x);
        proof {
            assert(self@ =~= old(self)@.insert(x as int));
            if !added {
                assert(self@ =~= old(self)@);
            }
        }
        Ok(added)
    }

    /// Removes a value that is not the cached minimum of this node.
    #[verifier::rlimit(100)]
    fn del_other(&mut self, x: usize)
        requires
            old(self).wf(),
            old(self).spec_universe() > 2,
            old(self).min is Some,
            (x as int) != old(self).smin(),
            (x as int) < old(self).spec_universe(),
        ensures
            final(self).wf(),
            final(self).spec_universe() == old(self).spec_universe(),
            forall|y: int|
                #![trigger final(self).member(y)]
                #![trigger old(self).member(y)]
                final(self).member(y) == (old(self).member(y) && y != x as int),
            final(self).spec_size() == old(self).spec_size() - (if old(self).member(x as int) {
                1int
            } else {
                0int
            }),
        decreases old(self).spec_universe(), 0int,
    {
        let ghost prev = *self;
        let ghost ui = old(self).spec_universe();
        let ghost xi = x as int;
        proof {
            lemma_universe_split(ui);
            lemma_split_value(ui, xi);
        }
        let ghost up = upper_sqrt(ui);
        let ghost w = lower_sqrt(ui);
        let mn = self.min.unwrap();
        let mx = self.max.unwrap();
        let lo = self.cluster_size();
        let h = x / lo;
        let l = x % lo;
        let ghost hi = h as int;
        let ghost li = l as int;
        let present = self.clusters[h].contains(&l);
        if !present {
            proof {
                if prev.member(xi) {
                    prev.lemma_member_below(xi);
                }
                assert(!prev.member(xi));
                assert forall|y: int|
                    #![trigger self.member(y)]
                    #![trigger prev.member(y)]
                    self.member(y) == (prev.member(y) && y != xi) by {}
            }
            return ;
        }
        proof {
            prev.lemma_below_member(xi);
        }
        let mut cl = self.clusters.remove(h);
        let ghost cl0 = cl;
        cl.delete_in(l);
        let cl_empty = cl.element_count == 0;
        self.clusters.insert(h, cl);
        proof {
            lemma_remove_insert(prev.clusters@, hi, cl);
            assert(self.clusters@ =~= prev.clusters@.update(hi, cl));
            lemma_sum_counts_update(prev.clusters@, hi, cl);
            assert(cl.spec_size() == cl0.spec_size() - 1);
        }
        if cl_empty {
            let mut s = self.summary.take().unwrap();
            (&mut *s).delete_in(h);
            self.summary = Some(s);
        }
        if x == mx {
            if !cl_empty {
                let cm_opt = self.clusters[h].max();
                match cm_opt {
                    Some(cm) => {
                        proof {
                            cl.lemma_member_bounds(cm as int);
                            lemma_join_pair(ui, hi, cm as int);
                        }
                        let nmax = h * lo + cm;
                        self.max = Some(nmax);
                        proof {
                            assert(spec_high(ui, nmax as int) == hi);
                            assert(spec_low(ui, nmax as int) == cm as int);
                            assert(cl@.contains(cm as int));
                            assert(prev.clusters[hi].member(cm as int));
                            assert((mn as int) < nmax as int);
                            assert forall|z: int| cl@.contains(z) implies z <= spec_low(
                                ui,
                                nmax as int,
                            ) by {
                                assert(z <= cm as int);
                            }
                        }
                    },
                    None => {
                        proof {
                            cl.lemma_nonempty();
                            assert(cl@.contains(cl.smin()));
                            assert(false);
                        }
                    },
                }
            } else {
                let sm_opt = self.summary.as_ref().unwrap().max();
                match sm_opt {
                    Some(sm) => {
                        proof {
                            (*self.summary->0).lemma_member_bounds(sm as int);
                            assert((*prev.summary->0).member(sm as int) && sm as int != hi);
                            assert(prev.clusters[sm as int].spec_size() != 0);
                            assert(self.clusters[sm as int] == prev.clusters[sm as int]);
                        }
                        let cm_opt = self.clusters[sm].max();
                        match cm_opt {
                            Some(cm) => {
                                proof {
                                    self.clusters[sm as int].lemma_member_bounds(cm as int);
                                    lemma_join_pair(ui, sm as int, cm as int);
                                }
                                let nmax = sm * lo + cm;
                                self.max = Some(nmax);
                                proof {
                                    assert(spec_high(ui, nmax as int) == sm as int);
                                    assert(spec_low(ui, nmax as int) == cm as int);
                                    assert(self.clusters[sm as int].member(cm as int));
                                    assert(prev.clusters[sm as int].member(cm as int));
                                    assert((mn as int) < nmax as int);
                                    assert((*self.summary->0)@.contains(sm as int));
                                    assert forall|z: int| (*self.summary->0)@.contains(z) implies z
                                        <= spec_high(ui, nmax as int) by {
                                        assert(z <= sm as int);
                                    }
                                    assert forall|z: int|
                                        self.clusters[sm as int]@.contains(z) implies z <= spec_low(
                                        ui,
                                        nmax as int,
                                    ) by {
                                        assert(z <= cm as int);
                                    }
                                }
                            },
                            None => {
                                proof {
                                    let c = self.clusters[sm as int];
                                    assert(c == prev.clusters[sm as int]);
                                    assert(c.wf());
                                    c.lemma_nonempty();
                                    assert(c@.contains(c.smin()));
                                    assert(false);
                                }
                            },
                        }
                    },
                    None => {
                        self.max = Some(mn);
                        proof {
                            assert((*self.summary->0)@ == Set::<int>::empty());
                        }
                    },
                }
            }
        }
        self.element_count = self.element_count - 1;
        proof {
            let nmn = self.smin();
            let nmx = self.smax();
            assert(nmn == mn as int);
            // where the new maximum sits
            if x == mx {
                if !cl_empty {
                    assert(spec_high(ui, nmx) == hi && cl@.contains(spec_low(ui, nmx)));
                } else if nmx != mn as int {
                    let smv = spec_high(ui, nmx);
                    let cmv = spec_low(ui, nmx);
                    assert((*self.summary->0)@.contains(smv));
                    assert(self.clusters[smv]@.contains(cmv));
                }
            } else {
                assert(nmx == mx as int);
            }
            // the summary still mirrors exactly the non-empty clusters
            assert forall|i: int|
                0 <= i < up implies ((*self.summary->0).member(i) <==> (
            #[trigger] self.clusters[i]).spec_size() != 0) by {
                if i != hi {
                    assert(self.clusters[i] == prev.clusters[i]);
                    if cl_empty {
                        assert((*self.summary->0).member(i) <==> ((*prev.summary->0).member(i) && i
                            != hi));
                    }
                } else {
                    if cl_empty {
                        assert(!(*self.summary->0).member(hi));
                    } else {
                        assert((*prev.summary->0).member(hi));
                    }
                }
            }
            // every recursively stored value still lies between the extremes
            assert forall|i: int, j: int|
                0 <= i < up && #[trigger] self.clusters[i].member(j) implies nmn < spec_index(
                ui,
                i,
                j,
            ) <= nmx by {
                if i == hi && cl_empty {
                    cl.lemma_empty_no_member(j);
                } else {
                    if i == hi {
                        assert(cl.member(j) && cl0.member(j) && j != li);
                    }
                    assert(prev.clusters[i].member(j));
                    assert((mn as int) < spec_index(ui, i, j) <= mx as int);
                    self.clusters[i].lemma_member_bounds(j);
                    lemma_join_pair(ui, i, j);
                    if x == mx {
                        let z = spec_index(ui, i, j);
                        assert(z != xi);
                        lemma_pair_order(ui, i, j, hi, li);
                        assert(i < hi || (i == hi && j < li));
                        if !cl_empty {
                            let cmv = spec_low(ui, nmx);
                            assert(cl@.contains(cmv));
                            cl.lemma_member_bounds(cmv);
                            if i == hi {
                                assert(cl@.contains(j));
                                assert(j <= cmv);
                            } else {
                                lemma_pair_order(ui, i, j, hi, cmv);
                            }
                        } else {
                            assert(i != hi);
                            assert(self.clusters[i] == prev.clusters[i]);
                            self.clusters[i].lemma_nonempty();
                            assert(self.clusters[i].spec_size() != 0);
                            assert(prev.clusters[i].spec_size() != 0);
                            assert((*prev.summary->0).member(i));
                            assert((*self.summary->0).member(i));
                            assert((*self.summary->0)@.contains(i));
                            if nmx == mn as int {
                                assert(false);
                            } else {
                                let smv = spec_high(ui, nmx);
                                let cmv = spec_low(ui, nmx);
                                assert(i <= smv);
                                self.clusters[smv].lemma_member_bounds(cmv);
                                if i == smv {
                                    assert(self.clusters[smv]@.contains(j));
                                    assert(j <= cmv);
                                }
                                lemma_pair_order(ui, i, j, smv, cmv);
                            }
                        }
                    }
                }
            }
            assert(self.wf()) by {
                assert(prev.element_count as int >= 2) by {
                    lemma_sum_counts_lower(prev.clusters@, hi);
                    assert(cl0.spec_size() >= 1);
                }
                if nmn != nmx {
                    let hm = spec_high(ui, nmx);
                    let lm = spec_low(ui, nmx);
                    if x != mx {
                        lemma_split_value(ui, nmx);
                        assert(prev.clusters[hm].member(lm));
                        if hm == hi {
                            assert(lm != li);
                            assert(cl.member(lm));
                        }
                        assert(self.clusters[hm].member(lm));
                    } else {
                        assert(self.clusters[hm].member(lm));
                    }
                }
            }
            assert forall|y: int|
                #![trigger self.member(y)]
                #![trigger prev.member(y)]
                self.member(y) == (prev.member(y) && y != xi) by {
                let hy = spec_high(ui, y);
                let ly = spec_low(ui, y);
                if self.member(y) {
                    if y == nmn {
                        assert(prev.member(y) && y != xi);
                    } else if y == nmx {
                        if x != mx {
                            assert(y == mx as int);
                            assert(prev.member(y) && y != xi);
                        } else {
                            // the recomputed maximum came from a cluster
                            self.lemma_member_below(y);
                            lemma_split_value(ui, y);
                            if hy == hi {
                                assert(cl.member(ly) && cl0.member(ly) && ly != li);
                                prev.lemma_below_member(y);
                            } else {
                                assert(prev.clusters[hy].member(ly));
                                prev.lemma_below_member(y);
                            }
                            assert(y != xi);
                        }
                    } else {
                        self.lemma_member_below(y);
                        lemma_split_value(ui, y);
                        if hy == hi {
                            assert(cl.member(ly) && cl0.member(ly) && ly != li);
                            prev.lemma_below_member(y);
                        } else {
                            assert(prev.clusters[hy].member(ly));
                            prev.lemma_below_member(y);
                        }
                        assert(y != xi);
                    }
                }
                if prev.member(y) && y != xi {
                    if y == mn as int {
                        assert(self.member(y));
                    } else if y == mx as int && x != mx {
                        assert(self.member(y));
                    } else {
                        prev.lemma_member_below(y);
                        lemma_split_value(ui, y);
                        if hy == hi {
                            assert(cl0.member(ly) && ly != li);
                            assert(cl.member(ly));
                        } else {
                            assert(self.clusters[hy].member(ly));
                        }
                        self.lemma_below_member(y);
                    }
                }
            }
        }
    }

    /// Removes the cached minimum of a node that holds at least two
    /// elements, promoting the smallest recursively stored value.
    #[verifier::rlimit(100)]
    fn del_min(&mut self)
        requires
            old(self).wf(),
            old(self).spec_universe() > 2,
            old(self).min is Some,
            old(self).smin() != old(self).smax(),
        ensures
            final(self).wf(),
            final(self).spec_universe() == old(self).spec_universe(),
            forall|y: int|
                #![trigger final(self).member(y)]
                #![trigger old(self).member(y)]
                final(self).member(y) == (old(self).member(y) && y != old(self).smin()),
            final(self).spec_size() == old(self).spec_size() - 1,
        decreases old(self).spec_universe(), 0int,
    {
        let ghost prev = *self;
        let ghost ui = old(self).spec_universe();
        proof {
            lemma_universe_split(ui);
        }
        let ghost up = upper_sqrt(ui);
        let ghost w = lower_sqrt(ui);
        let mn = self.min.unwrap();
        let mx = self.max.unwrap();
        let lo = self.cluster_size();
        proof {
            let hm = spec_high(ui, mx as int);
            assert(prev.clusters[hm].member(spec_low(ui, mx as int)));
            prev.clusters[hm].lemma_member_bounds(spec_low(ui, mx as int));
            prev.clusters[hm].lemma_nonempty();
            assert(prev.clusters[hm].spec_size() != 0);
            assert((*prev.summary->0).member(hm));
            assert((*prev.summary->0)@.contains(hm));
        }
        let c_opt = self.summary.as_ref().unwrap().min();
        let c = match c_opt {
            Some(c) => c,
            None => {
                proof {
                    assert(false);
                }
                return ;
            },
        };
        proof {
            (*self.summary->0).lemma_member_bounds(c as int);
            assert((*prev.summary->0).member(c as int));
            assert(self.clusters[c as int].spec_size() != 0);
            self.clusters[c as int].lemma_nonempty();
            assert(self.clusters[c as int].min is Some);
        }
        let o_opt = self.clusters[c].min();
        let o = match o_opt {
            Some(o) => o,
            None => {
                proof {
                    let cc = self.clusters[c as int];
                    cc.lemma_extremes_member();
                    assert(cc@.contains(cc.smin()));
                    assert(false);
                }
                return ;
            },
        };
        let ghost ci = c as int;
        let ghost oi = o as int;
        proof {
            self.clusters[ci].lemma_member_bounds(oi);
            lemma_join_pair(ui, ci, oi);
        }
        let newmin = c * lo + o;
        let ghost nm = newmin as int;
        proof {
            assert(prev.clusters[ci].member(oi));
            prev.lemma_below_member(nm);
            assert((mn as int) < nm <= mx as int);
        }
        self.min = Some(newmin);
        let mut cl = self.clusters.remove(c);
        let ghost cl0 = cl;
        cl.delete_in(o);
        let cl_empty = cl.element_count == 0;
        self.clusters.insert(c, cl);
        proof {
            lemma_remove_insert(prev.clusters@, ci, cl);
            assert(self.clusters@ =~= prev.clusters@.update(ci, cl));
            lemma_sum_counts_update(prev.clusters@, ci, cl);
            assert(cl.spec_size() == cl0.spec_size() - 1);
        }
        if cl_empty {
            let mut s = self.summary.take().unwrap();
            (&mut *s).delete_in(c);
            self.summary = Some(s);
        }
        if newmin == mx {
            proof {
                if !cl_empty {
                    // any survivor of the promoted value's cluster would lie
                    // above the maximum
                    cl.lemma_extremes_member();
                    let j = cl.smin() as int;
                    assert(cl.member(j));
                    assert(cl0.member(j) && j != oi);
                    assert(prev.clusters[ci].member(j));
                    assert((mn as int) < spec_index(ui, ci, j) <= mx as int);
                    cl.lemma_member_bounds(j);
                    lemma_join_pair(ui, ci, j);
                    lemma_pair_order(ui, ci, j, ci, oi);
                    assert(cl0@.contains(j));
                    assert(oi <= j);
                    assert(false);
                }
            }
            let sm_opt = self.summary.as_ref().unwrap().max();
            match sm_opt {
                Some(sm) => {
                    proof {
                        (*self.summary->0).lemma_member_bounds(sm as int);
                        assert((*prev.summary->0).member(sm as int) && sm as int != ci);
                        assert(prev.clusters[sm as int].spec_size() != 0);
                        assert(self.clusters[sm as int] == prev.clusters[sm as int]);
                    }
                    let cm_opt = self.clusters[sm].max();
                    match cm_opt {
                        Some(cm) => {
                            proof {
                                self.clusters[sm as int].lemma_member_bounds(cm as int);
                                lemma_join_pair(ui, sm as int, cm as int);
                            }
                            let nmax = sm * lo + cm;
                            self.max = Some(nmax);
                            proof {
                                assert(spec_high(ui, nmax as int) == sm as int);
                                assert(spec_low(ui, nmax as int) == cm as int);
                                assert(prev.clusters[sm as int].member(cm as int));
                                assert((mn as int) < nmax as int);
                                assert((*self.summary->0)@.contains(sm as int));
                                assert((*prev.summary->0)@.contains(sm as int));
                                assert(ci <= sm as int && ci != sm as int);
                                lemma_pair_order(ui, ci, oi, sm as int, cm as int);
                                assert(nm < nmax as int);
                                assert forall|z: int| (*self.summary->0)@.contains(z) implies z
                                    <= spec_high(ui, nmax as int) by {
                                    assert(z <= sm as int);
                                }
                                assert forall|z: int|
                                    self.clusters[sm as int]@.contains(z) implies z <= spec_low(
                                    ui,
                                    nmax as int,
                                ) by {
                                    assert(z <= cm as int);
                                }
                            }
                        },
                        None => {
                            proof {
                                let cc = self.clusters[sm as int];
                                assert(cc == prev.clusters[sm as int]);
                                assert(cc.wf());
                                cc.lemma_nonempty();
                                assert(cc@.contains(cc.smin()));
                                assert(false);
                            }
                        },
                    }
                },
                None => {
                    self.max = Some(newmin);
                    proof {
                        assert((*self.summary->0)@ == Set::<int>::empty());
                    }
                },
            }
        }
        self.element_count = self.element_count - 1;
        proof {
            let nmn = self.smin();
            let nmx = self.smax();
            let xi = mn as int;
            assert(nmn == nm);
            // where the new maximum sits
            if nm != mx as int {
                assert(nmx == mx as int);
            } else if nmx != nm {
                let smv = spec_high(ui, nmx);
                let cmv = spec_low(ui, nmx);
                assert((*self.summary->0)@.contains(smv));
                assert(self.clusters[smv]@.contains(cmv));
            }
            // the summary still mirrors exactly the non-empty clusters
            assert forall|i: int|
                0 <= i < up implies ((*self.summary->0).member(i) <==> (
            #[trigger] self.clusters[i]).spec_size() != 0) by {
                if i != ci {
                    assert(self.clusters[i] == prev.clusters[i]);
                    if cl_empty {
                        assert((*self.summary->0).member(i) <==> ((*prev.summary->0).member(i) && i
                            != ci));
                    }
                } else {
                    if cl_empty {
                        assert(!(*self.summary->0).member(ci));
                    } else {
                        assert((*prev.summary->0).member(ci));
                    }
                }
            }
            // every recursively stored value lies above the promoted minimum
            // and at or below the maximum
            assert forall|i: int, j: int|
                0 <= i < up && #[trigger] self.clusters[i].member(j) implies nmn < spec_index(
                ui,
                i,
                j,
            ) <= nmx by {
                if i == ci && cl_empty {
                    cl.lemma_empty_no_member(j);
                } else {
                    if i == ci {
                        assert(cl.member(j) && cl0.member(j) && j != oi);
                    }
                    assert(prev.clusters[i].member(j));
                    assert((mn as int) < spec_index(ui, i, j) <= mx as int);
                    self.clusters[i].lemma_member_bounds(j);
                    lemma_join_pair(ui, i, j);
                    // strictly above the new minimum
                    if i == ci {
                        assert(cl0@.contains(j));
                        assert(oi <= j);
                        lemma_pair_order(ui, ci, oi, i, j);
                    } else {
                        assert(self.clusters[i] == prev.clusters[i]);
                        self.clusters[i].lemma_nonempty();
                        assert(self.clusters[i].spec_size() != 0);
                        assert(prev.clusters[i].spec_size() != 0);
                        assert((*prev.summary->0).member(i));
                        assert((*prev.summary->0)@.contains(i));
                        assert(ci <= i);
                        lemma_pair_order(ui, ci, oi, i, j);
                    }
                    // at or below the new maximum
                    if nm == mx as int {
                        assert(i != ci);
                        assert(self.clusters[i] == prev.clusters[i]);
                        prev.clusters[i].lemma_nonempty();
                        assert(prev.clusters[i].spec_size() != 0);
                        assert((*prev.summary->0).member(i));
                        assert((*self.summary->0).member(i));
                        assert((*self.summary->0)@.contains(i));
                        if nmx == nm {
                            assert(false);
                        } else {
                            let smv = spec_high(ui, nmx);
                            let cmv = spec_low(ui, nmx);
                            assert(i <= smv);
                            self.clusters[smv].lemma_member_bounds(cmv);
                            if i == smv {
                                assert(self.clusters[smv]@.contains(j));
                                assert(j <= cmv);
                            }
                            lemma_pair_order(ui, i, j, smv, cmv);
                        }
                    }
                }
            }
            assert(self.wf()) by {
                assert(prev.element_count as int >= 2) by {
                    lemma_sum_counts_lower(prev.clusters@, ci);
                    assert(cl0.spec_size() >= 1);
                }
                if nmn != nmx {
                    let hm = spec_high(ui, nmx);
                    let lm = spec_low(ui, nmx);
                    if nm != mx as int {
                        lemma_split_value(ui, nmx);
                        assert(prev.clusters[hm].member(lm));
                        if hm == ci {
                            assert(lm != oi);
                            assert(cl.member(lm));
                        }
                        assert(self.clusters[hm].member(lm));
                    } else {
                        assert(self.clusters[hm].member(lm));
                    }
                }
            }
            assert forall|y: int|
                #![trigger self.member(y)]
                #![trigger prev.member(y)]
                self.member(y) == (prev.member(y) && y != xi) by {
                let hy = spec_high(ui, y);
                let ly = spec_low(ui, y);
                if self.member(y) {
                    if y == nmn {
                        assert(prev.member(y) && y != xi);
                    } else if y == nmx {
                        if nm != mx as int {
                            assert(y == mx as int);
                            assert(prev.member(y) && y != xi);
                        } else {
                            self.lemma_member_below(y);
                            lemma_split_value(ui, y);
                            if hy == ci {
                                assert(cl.member(ly) && cl0.member(ly) && ly != oi);
                                prev.lemma_below_member(y);
                            } else {
                                assert(prev.clusters[hy].member(ly));
                                prev.lemma_below_member(y);
                            }
                            assert(y != xi);
                        }
                    } else {
                        self.lemma_member_below(y);
                        lemma_split_value(ui, y);
                        if hy == ci {
                            assert(cl.member(ly) && cl0.member(ly) && ly != oi);
                            prev.lemma_below_member(y);
                        } else {
                            assert(prev.clusters[hy].member(ly));
                            prev.lemma_below_member(y);
                        }
                        assert(y != xi);
                    }
                }
                if prev.member(y) && y != xi {
                    if y == nm {
                        assert(self.member(y));
                    } else {
                        prev.lemma_member_below(y);
                        lemma_split_value(ui, y);
                        if hy == ci {
                            assert(cl0.member(ly) && ly != oi);
                            assert(cl.member(ly));
                        } else {
                            assert(self.clusters[hy].member(ly));
                        }
                        self.lemma_below_member(y);
                    }
                }
            }
        }
    }

    /// Removes `x`, known to be in range; absent values are a no-op.
    fn delete_in(&mut self, x: usize)
        requires
            old(self).wf(),
            (x as int) < old(self).spec_universe(),
        ensures
            final(self).wf(),
            final(self).spec_universe() == old(self).spec_universe(),
            forall|y: int|
                #![trigger final(self).member(y)]
                #![trigger old(self).member(y)]
                final(self).member(y) == (old(self).member(y) && y != x as int),
            final(self).spec_size() == old(self).spec_size() - (if old(self).member(x as int) {
                1int
            } else {
                0int
            }),
        decreases old(self).spec_universe(), 1int,
    {
        let ghost prev = *self;
        let ghost ui = old(self).spec_universe();
        let ghost xi = x as int;
        let u = self.universe_size;
        let mn = match self.min {
            None => {
                proof {
                    assert forall|y: int|
                        #![trigger self.member(y)]
                        #![trigger prev.member(y)]
                        self.member(y) == (prev.member(y) && y != xi) by {
                        prev.lemma_empty_no_member(y);
                    }
                    prev.lemma_empty_no_member(xi);
                }
                return ;
            },
            Some(mn) => mn,
        };
        let mx = self.max.unwrap();
        if x == mn && x == mx {
            self.min = None;
            self.max = None;
            self.element_count = 0;
            proof {
                if ui > 2 {
                    lemma_universe_split(ui);
                    assert forall|i: int|
                        0 <= i < upper_sqrt(ui) implies (#[trigger] self.clusters[i]).spec_size()
                        == 0 by {
                        let cc = self.clusters[i];
                        assert(cc == prev.clusters[i]);
                        assert(cc.wf());
                        if cc.spec_size() != 0 {
                            cc.lemma_nonempty();
                            assert(prev.clusters[i].member(cc.smin()));
                            assert(prev.smin() < spec_index(ui, i, cc.smin()) <= prev.smax());
                        }
                    }
                    lemma_sum_counts_zero(self.clusters@);
                }
                assert forall|y: int|
                    #![trigger self.member(y)]
                    #![trigger prev.member(y)]
                    self.member(y) == (prev.member(y) && y != xi) by {
                    if self.member(y) {
                        let h = spec_high(ui, y);
                        if 0 <= y < ui && 0 <= h < self.clusters.len() {
                            self.clusters[h].lemma_empty_no_member(spec_low(ui, y));
                        }
                    }
                    if prev.member(y) && y != xi {
                        prev.lemma_member_bounds(y);
                    }
                }
                assert(prev.element_count as int == 1) by {
                    if ui > 2 {
                        lemma_sum_counts_zero(prev.clusters@);
                    }
                }
            }
            return ;
        }
        if u == 2 {
            if x == mn {
                self.min = Some(mx);
                self.element_count = 1;
            } else if x == mx {
                self.max = Some(mn);
                self.element_count = 1;
            }
            proof {
                assert forall|y: int|
                    #![trigger self.member(y)]
                    #![trigger prev.member(y)]
                    self.member(y) == (prev.member(y) && y != xi) by {}
            }
            return ;
        }
        if x == mn {
            self.del_min();
        } else {
            self.del_other(x);
        }
    }

    /// Removes `x` from the set. Out-of-range or absent values are a no-op
    /// that leaves the set unchanged.
    pub fn delete(&mut self, x: &usize)
        requires
            old(self).wf(),
        ensures
            final(self).wf(),
            final(self).spec_universe() == old(self).spec_universe(),
            final(self)@ == old(self)@.remove(*x as int),
            final(self).spec_size() == old(self).spec_size() - (if old(self)@.contains(
                *x as int,
            ) {
                1int
            } else {
                0int
            }),
    {
        let xv = *x;
        if xv >= self.universe_size {
            proof {
                if self.member(xv as int) {
                    self.lemma_member_bounds(xv as int);
                }
                assert(self@ =~= old(self)@.remove(xv as int));
            }
            return ;
        }
        self.delete_in(xv);
        proof {
            assert(self@ =~= old(self)@.remove(xv as int));
        }
    }

    /// The smallest element strictly greater than `x`, or `None` when no
    /// element lies above `x` (in particular when `x` is out of range).
    #[verifier::rlimit(100)]
    pub fn successor(&self, x: &usize) -> (r: Option<usize>)
        requires
            self.wf(),
        ensures
            match r {
                Some(y) => crate::laws::is_next(self@, *x as int, y as int),
                None => forall|z: int| self@.contains(z) ==> z <= *x as int,
            },
        decreases self.spec_universe(),
    {
        let ghost ui = self.spec_universe();
        let u = self.universe_size;
        let xv = *x;
        let ghost xi = xv as int;
        if xv >= u {
            proof {
                assert forall|z: int| self@.contains(z) implies z <= xi by {
                    self.lemma_member_bounds(z);
                }
            }
            return None;
        }
        if u == 2 {
            let hit = match self.max {
                Some(mx) => xv == 0 && mx == 1,
                None => false,
            };
            if hit {
                proof {
                    self.lemma_extremes_member();
                    assert forall|z: int| self@.contains(z) && z > xi implies 1 <= z by {
                        self.lemma_member_bounds(z);
                    }
                }
                return Some(1);
            } else {
                proof {
                    assert forall|z: int| self@.contains(z) implies z <= xi by {
                        self.lemma_member_bounds(z);
                        if z > xi {
                            assert(xi == 0 && z == 1);
                            assert(self.smax() == 1);
                        }
                    }
                }
                return None;
            }
        }
        let mn = match self.min {
            Some(mn) => mn,
            None => {
                proof {
                    assert forall|z: int| self@.contains(z) implies z <= xi by {
                        self.lemma_empty_no_member(z);
                    }
                }
                return None;
            },
        };
        if xv < mn {
            proof {
                self.lemma_extremes_member();
                assert forall|z: int| self@.contains(z) && z > xi implies mn as int <= z by {
                    self.lemma_member_bounds(z);
                }
            }
            return Some(mn);
        }
        proof {
            lemma_universe_split(ui);
            lemma_split_value(ui, xi);
        }
        let ghost up = upper_sqrt(ui);
        let ghost w = lower_sqrt(ui);
        let lo = self.cluster_size();
        let h = xv / lo;
        let l = xv % lo;
        let ghost hi = h as int;
        let ghost li = l as int;
        let cmax_opt = self.clusters[h].max();
        let in_cluster = match cmax_opt {
            Some(cm) => l < cm,
            None => false,
        };
        if in_cluster {
            let o = self.clusters[h].successor(&l);
            match o {
                Some(ov) => {
                    proof {
                        self.clusters[hi].lemma_member_bounds(ov as int);
                        lemma_join_pair(ui, hi, ov as int);
                    }
                    let res = h * lo + ov;
                    proof {
                        let ri = res as int;
                        self.lemma_below_member(ri);
                        lemma_pair_order(ui, hi, li, hi, ov as int);
                        assert(xi < ri);
                        assert forall|z: int| self@.contains(z) && z > xi implies ri <= z by {
                            self.lemma_member_bounds(z);
                            self.lemma_member_below(z);
                            lemma_split_value(ui, z);
                            let hz = spec_high(ui, z);
                            let lz = spec_low(ui, z);
                            self.clusters[hz].lemma_member_bounds(lz);
                            lemma_pair_order(ui, hi, li, hz, lz);
                            if hz == hi {
                                assert(lz > li);
                                assert(self.clusters[hi]@.contains(lz));
                                assert(ov as int <= lz);
                            }
                            lemma_pair_order(ui, hi, ov as int, hz, lz);
                        }
                    }
                    return Some(res);
                },
                None => {
                    proof {
                        assert(false);
                    }
                    return None;
                },
            }
        }
        let sref = self.summary.as_ref().unwrap();
        let next_cluster = sref.successor(&h);
        proof {
            assert(*sref == self.summary->0);
        }
        match next_cluster {
            Some(h2) => {
                proof {
                    (*self.summary->0).lemma_member_bounds(h2 as int);
                }
                let m2 = match self.clusters[h2].min() {
                    Some(m2) => m2,
                    None => {
                        proof {
                            let c = self.clusters[h2 as int];
                            assert(c.wf());
                            assert((*self.summary->0).member(h2 as int));
                            assert(c.spec_size() != 0);
                            assert(c.min is Some);
                            c.lemma_extremes_member();
                            assert(c@.contains(c.smin()));
                            assert(false);
                        }
                        return None;
                    },
                };
                proof {
                    self.clusters[h2 as int].lemma_member_bounds(m2 as int);
                    lemma_join_pair(ui, h2 as int, m2 as int);
                }
                let res = h2 * lo + m2;
                proof {
                    let ri = res as int;
                    self.lemma_below_member(ri);
                    lemma_pair_order(ui, hi, li, h2 as int, m2 as int);
                    assert(xi < ri);
                    assert forall|z: int| self@.contains(z) && z > xi implies ri <= z by {
                        self.lemma_member_bounds(z);
                        self.lemma_member_below(z);
                        lemma_split_value(ui, z);
                        let hz = spec_high(ui, z);
                        let lz = spec_low(ui, z);
                        self.clusters[hz].lemma_member_bounds(lz);
                        lemma_pair_order(ui, hi, li, hz, lz);
                        if hz == hi {
                            // the query cluster holds nothing above the offset
                            assert(lz > li);
                            assert(self.clusters[hi]@.contains(lz));
                            assert(false);
                        } else {
                            assert(hz > hi);
                            assert(self.clusters[hz].wf());
                            assert(self.clusters[hz].spec_size() != 0);
                            assert((*self.summary->0).member(hz));
                            assert((*self.summary->0)@.contains(hz));
                            assert(h2 as int <= hz);
                            if hz == h2 as int {
                                assert(self.clusters[hz]@.contains(lz));
                                assert(m2 as int <= lz);
                            }
                            lemma_pair_order(ui, h2 as int, m2 as int, hz, lz);
                        }
                    }
                }
                Some(res)
            },
            None => {
                proof {
                    assert forall|z: int| self@.contains(z) implies z <= xi by {
                        if z > xi {
                            self.lemma_member_bounds(z);
                            self.lemma_member_below(z);
                            lemma_split_value(ui, z);
                            let hz = spec_high(ui, z);
                            let lz = spec_low(ui, z);
                            self.clusters[hz].lemma_member_bounds(lz);
                            lemma_pair_order(ui, hi, li, hz, lz);
                            if hz == hi {
                                assert(lz > li);
                                assert(self.clusters[hi]@.contains(lz));
                                assert(false);
                            } else {
                                assert(hz > hi);
                                assert(self.clusters[hz].wf());
                                assert(self.clusters[hz].spec_size() != 0);
                                assert((*self.summary->0).member(hz));
                                assert((*self.summary->0)@.contains(hz));
                                assert(false);
                            }
                        }
                    }
                }
                None
            },
        }
    }

    /// The largest element strictly smaller than `x`, or `None` when no
    /// element lies below `x` (in particular when `x` is out of range).
    #[verifier::rlimit(100)]
    pub fn predecessor(&self, x: &usize) -> (r: Option<usize>)
        requires
            self.wf(),
        ensures
            (*x as int) >= self.spec_universe() ==> r is None,
            (*x as int) < self.spec_universe() ==> match r {
                Some(y) => crate::laws::is_prev(self@, *x as int, y as int),
                None => forall|z: int| self@.contains(z) ==> z >= *x as int,
            },
        decreases self.spec_universe(),
    {
        let ghost ui = self.spec_universe();
        let u = self.universe_size;
        let xv = *x;
        let ghost xi = xv as int;
        if xv >= u {
            return None;
        }
        if u == 2 {
            let hit = match self.min {
                Some(mn) => xv == 1 && mn == 0,
                None => false,
            };
            if hit {
                proof {
                    self.lemma_extremes_member();
                    assert forall|z: int| self@.contains(z) && z < xi implies z <= 0 by {
                        self.lemma_member_bounds(z);
                    }
                }
                return Some(0);
            } else {
                proof {
                    assert forall|z: int| self@.contains(z) implies z >= xi by {
                        self.lemma_member_bounds(z);
                        if z < xi {
                            assert(xi == 1 && z == 0);
                            assert(self.smin() == 0);
                        }
                    }
                }
                return None;
            }
        }
        let mn = match self.min {
            Some(mn) => mn,
            None => {
                proof {
                    assert forall|z: int| self@.contains(z) implies z >= xi by {
                        self.lemma_empty_no_member(z);
                    }
                }
                return None;
            },
        };
        let mx = self.max.unwrap();
        if xv > mx {
            proof {
                self.lemma_extremes_member();
                assert forall|z: int| self@.contains(z) && z < xi implies z <= mx as int by {
                    self.lemma_member_bounds(z);
                }
            }
            return Some(mx);
        }
        proof {
            lemma_universe_split(ui);
            lemma_split_value(ui, xi);
        }
        let ghost up = upper_sqrt(ui);
        let ghost w = lower_sqrt(ui);
        let lo = self.cluster_size();
        let h = xv / lo;
        let l = xv % lo;
        let ghost hi = h as int;
        let ghost li = l as int;
        let cmin_opt = self.clusters[h].min();
        let in_cluster = match cmin_opt {
            Some(cm) => l > cm,
            None => false,
        };
        if in_cluster {
            let o = self.clusters[h].predecessor(&l);
            match o {
                Some(ov) => {
                    proof {
                        self.clusters[hi].lemma_member_bounds(ov as int);
                        lemma_join_pair(ui, hi, ov as int);
                    }
                    let res = h * lo + ov;
                    proof {
                        let ri = res as int;
                        self.lemma_below_member(ri);
                        lemma_pair_order(ui, hi, ov as int, hi, li);
                        assert(ri < xi);
                        assert forall|z: int| self@.contains(z) && z < xi implies z <= ri by {
                            self.lemma_member_bounds(z);
                            if z != self.smin() {
                                self.lemma_member_below(z);
                                lemma_split_value(ui, z);
                                let hz = spec_high(ui, z);
                                let lz = spec_low(ui, z);
                                self.clusters[hz].lemma_member_bounds(lz);
                                lemma_pair_order(ui, hz, lz, hi, li);
                                if hz == hi {
                                    assert(lz < li);
                                    assert(self.clusters[hi]@.contains(lz));
                                    assert(lz <= ov as int);
                                }
                                lemma_pair_order(ui, hz, lz, hi, ov as int);
                            } else {
                                // the minimum sits below every recursively
                                // stored value, so below the result too
                                assert(self.clusters[hi].member(ov as int));
                                assert(self.smin() < spec_index(ui, hi, ov as int));
                            }
                        }
                    }
                    return Some(res);
                },
                None => {
                    proof {
                        assert(false);
                    }
                    return None;
                },
            }
        }
        let sref = self.summary.as_ref().unwrap();
        let prev_cluster = sref.predecessor(&h);
        proof {
            assert(*sref == self.summary->0);
        }
        match prev_cluster {
            Some(h2) => {
                proof {
                    (*self.summary->0).lemma_member_bounds(h2 as int);
                }
                let m2 = match self.clusters[h2].max() {
                    Some(m2) => m2,
                    None => {
                        proof {
                            let c = self.clusters[h2 as int];
                            assert(c.wf());
                            assert((*self.summary->0).member(h2 as int));
                            assert(c.spec_size() != 0);
                            assert(c.min is Some);
                            c.lemma_extremes_member();
                            assert(c@.contains(c.smax()));
                            assert(false);
                        }
                        return None;
                    },
                };
                proof {
                    self.clusters[h2 as int].lemma_member_bounds(m2 as int);
                    lemma_join_pair(ui, h2 as int, m2 as int);
                }
                let res = h2 * lo + m2;
                proof {
                    let ri = res as int;
                    self.lemma_below_member(ri);
                    lemma_pair_order(ui, h2 as int, m2 as int, hi, li);
                    assert(ri < xi);
                    assert forall|z: int| self@.contains(z) && z < xi implies z <= ri by {
                        self.lemma_member_bounds(z);
                        if z != self.smin() {
                            self.lemma_member_below(z);
                            lemma_split_value(ui, z);
                            let hz = spec_high(ui, z);
                            let lz = spec_low(ui, z);
                            self.clusters[hz].lemma_member_bounds(lz);
                            lemma_pair_order(ui, hz, lz, hi, li);
                            if hz == hi {
                                // the query cluster holds nothing below the
                                // offset
                                assert(lz < li);
                                assert(self.clusters[hi]@.contains(lz));
                                assert(false);
                            } else if hz > hi {
                                assert(false);
                            } else {
                                assert(self.clusters[hz].wf());
                                assert(self.clusters[hz].spec_size() != 0);
                                assert((*self.summary->0).member(hz));
                                assert((*self.summary->0)@.contains(hz));
                                assert(hz <= h2 as int);
                                if hz == h2 as int {
                                    assert(self.clusters[hz]@.contains(lz));
                                    assert(lz <= m2 as int);
                                }
                                lemma_pair_order(ui, hz, lz, h2 as int, m2 as int);
                            }
                        } else {
                            assert(self.clusters[h2 as int].member(m2 as int));
                            assert(self.smin() < spec_index(ui, h2 as int, m2 as int));
                        }
                    }
                }
                Some(res)
            },
            None => {
                if xv > mn {
                    proof {
                        self.lemma_extremes_member();
                        assert forall|z: int| self@.contains(z) && z < xi implies z <= mn as int by {
                            self.lemma_member_bounds(z);
                            if z != self.smin() {
                                self.lemma_member_below(z);
                                lemma_split_value(ui, z);
                                let hz = spec_high(ui, z);
                                let lz = spec_low(ui, z);
                                self.clusters[hz].lemma_member_bounds(lz);
                                lemma_pair_order(ui, hz, lz, hi, li);
                                if hz == hi {
                                    assert(lz < li);
                                    assert(self.clusters[hi]@.contains(lz));
                                    assert(false);
                                } else if hz > hi {
                                    assert(false);
                                } else {
                                    assert(self.clusters[hz].wf());
                                    assert(self.clusters[hz].spec_size() != 0);
                                    assert((*self.summary->0).member(hz));
                                    assert((*self.summary->0)@.contains(hz));
                                    assert(false);
                                }
                            }
                        }
                    }
                    Some(mn)
                } else {
                    proof {
                        assert forall|z: int| self@.contains(z) implies z >= xi by {
                            self.lemma_member_bounds(z);
                        }
                    }
                    None
                }
            },
        }
    }

    /// The width of one cluster of this node: `lower_sqrt` of the universe.
    pub fn cluster_size(&self) -> (r: usize)
        requires
            self.wf(),
        ensures
            r as int == lower_sqrt(self.spec_universe()),
    {
        let u = self.universe_size;
        if u == 2 {
            proof {
                lemma_universe_pow2(2);
                vstd::arithmetic::power2::lemma2_to64();
                if log2(2) != 1 {
                    if log2(2) >= 2 {
                        lemma_pow2_strictly_increases(1, log2(2));
                    }
                }
            }
            1
        } else {
            let (_, lo) = Self::split_universe(u);
            lo
        }
    }
}

/// A sequence of empty clusters sums to zero.
proof fn lemma_sum_counts_zero(s: Seq<vEB>)
    requires
        forall|i: int| 0 <= i < s.len() ==> (#[trigger] s[i]).spec_size() == 0,
    ensures
        sum_counts(s) == 0,
    decreases s.len(),
{
    if s.len() > 0 {
        lemma_sum_counts_zero(s.drop_last());
    }
}

/// Replacing one cluster changes the sum by the difference of the counts.
proof fn lemma_sum_counts_update(s: Seq<vEB>, i: int, c: vEB)
    requires
        0 <= i < s.len(),
    ensures
        sum_counts(s.update(i, c)) == sum_counts(s) - s[i].spec_size() + c.spec_size(),
    decreases s.len(),
{
    if i == s.len() - 1 {
        assert(s.update(i, c).drop_last() =~= s.drop_last());
        assert(s.update(i, c).last() == c);
    } else {
        assert(s.update(i, c).drop_last() =~= s.drop_last().update(i, c));
        assert(s.update(i, c).last() == s.last());
        lemma_sum_counts_update(s.drop_last(), i, c);
    }
}

/// Cluster sums are never negative.
proof fn lemma_sum_counts_nonneg(s: Seq<vEB>)
    ensures
        sum_counts(s) >= 0,
    decreases s.len(),
{
    if s.len() > 0 {
        lemma_sum_counts_nonneg(s.drop_last());
    }
}

/// The sum of the cluster counts dominates each single count.
proof fn lemma_sum_counts_lower(s: Seq<vEB>, i: int)
    requires
        0 <= i < s.len(),
    ensures
        sum_counts(s) >= s[i].spec_size(),
    decreases s.len(),
{
    if i == s.len() - 1 {
        lemma_sum_counts_nonneg(s.drop_last());
    } else {
        lemma_sum_counts_lower(s.drop_last(), i);
    }
}

/// Restoring a removed cluster in place is the same as replacing it.
proof fn lemma_remove_insert(s: Seq<vEB>, i: int, c: vEB)
    requires
        0 <= i < s.len(),
    ensures
        s.remove(i).insert(i, c) =~= s.update(i, c),
{
}

/// The set `s` displaced upward by `off`.
spec fn shift_set(s: Set<int>, off: int) -> Set<int> {
    Set::new(|v: int| s.contains(v - off))
}

/// Displacing a finite set preserves its cardinality.
proof fn lemma_shift_len(s: Set<int>, off: int)
    requires
        s.finite(),
    ensures
        shift_set(s, off).finite(),
        shift_set(s, off).len() == s.len(),
    decreases s.len(),
{
    if s.len() == 0 {
        s.lemma_len0_is_empty();
        assert(shift_set(s, off) =~= Set::<int>::empty());
    } else {
        if s.is_empty() {
            assert(s =~= Set::<int>::empty());
        }
        let a = s.choose();
        assert(s.contains(a));
        lemma_shift_len(s.remove(a), off);
        assert(shift_set(s.remove(a), off).insert(a + off) =~= shift_set(s, off));
        assert(!s.remove(a).contains((a + off) - off));
    }
}

/// The cardinality of a union of disjoint finite sets is the sum of the
/// cardinalities.
proof fn lemma_disjoint_union_len(a: Set<int>, b: Set<int>)
    requires
        a.finite(),
        b.finite(),
        a.disjoint(b),
    ensures
        a.union(b).finite(),
        a.union(b).len() == a.len() + b.len(),
    decreases b.len(),
{
    if b.len() == 0 {
        b.lemma_len0_is_empty();
        assert(a.union(b) =~= a);
    } else {
        if b.is_empty() {
            assert(b =~= Set::<int>::empty());
        }
        let x = b.choose();
        assert(b.contains(x));
        assert(a.disjoint(b.remove(x)));
        lemma_disjoint_union_len(a, b.remove(x));
        assert(a.union(b.remove(x)).insert(x) =~= a.union(b));
        assert(!a.union(b.remove(x)).contains(x));
    }
}

/// The members of the clusters before index `k`, each shifted into its block
/// of `w` consecutive values.
spec fn below_upto(cl: Seq<vEB>, w: int, k: int) -> Set<int>
    decreases k,
{
    if k <= 0 {
        Set::empty()
    } else {
        below_upto(cl, w, k - 1).union(shift_set(cl[k - 1]@, (k - 1) * w))
    }
}

/// What it means to lie in the shifted prefix union.
proof fn lemma_below_upto_member(cl: Seq<vEB>, w: int, k: int, v: int)
    requires
        0 <= k,
    ensures
        below_upto(cl, w, k).contains(v) <==> exists|i: int|
            0 <= i < k && #[trigger] cl[i].member(v - i * w),
    decreases k,
{
    if k > 0 {
        lemma_below_upto_member(cl, w, k - 1, v);
        if below_upto(cl, w, k).contains(v) {
            if shift_set(cl[k - 1]@, (k - 1) * w).contains(v) {
                assert(cl[k - 1].member(v - (k - 1) * w));
            }
        }
        if exists|i: int| 0 <= i < k && #[trigger] cl[i].member(v - i * w) {
            let i = choose|i: int| 0 <= i < k && #[trigger] cl[i].member(v - i * w);
            if i == k - 1 {
                assert(shift_set(cl[k - 1]@, (k - 1) * w).contains(v));
            }
        }
    }
}

/// The shifted prefix union is finite, counts exactly the cluster sums, and
/// stays inside the first `k` blocks.
proof fn lemma_below_upto_len(cl: Seq<vEB>, w: int, k: int)
    requires
        0 <= k <= cl.len(),
        w >= 1,
        forall|i: int|
            0 <= i < cl.len() ==> (#[trigger] cl[i]).wf() && cl[i].spec_universe() == w,
    ensures
        below_upto(cl, w, k).finite(),
        below_upto(cl, w, k).len() == sum_counts(cl.take(k)),
        forall|v: int| #[trigger] below_upto(cl, w, k).contains(v) ==> 0 <= v < k * w,
    decreases w, k,
{
    if k == 0 {
        assert(below_upto(cl, w, 0).len() == 0);
        assert(cl.take(0).len() == 0);
    } else {
        lemma_below_upto_len(cl, w, k - 1);
        let c = cl[k - 1];
        let off = (k - 1) * w;
        c.lemma_count_is_len();
        lemma_shift_len(c@, off);
        assert((k - 1) * w + w == k * w) by (nonlinear_arith);
        assert forall|v: int| #[trigger] shift_set(c@, off).contains(v) implies off <= v < k
            * w by {
            c.lemma_member_bounds(v - off);
        }
        let prev = below_upto(cl, w, k - 1);
        let blk = shift_set(c@, off);
        assert(prev.disjoint(blk));
        lemma_disjoint_union_len(prev, blk);
        assert(cl.take(k).drop_last() =~= cl.take(k - 1));
        assert(cl.take(k).last() == c);
        assert(sum_counts(cl.take(k)) == sum_counts(cl.take(k - 1)) + c.spec_size());
        assert forall|v: int| #[trigger] below_upto(cl, w, k).contains(v) implies 0 <= v < k
            * w by {
            if prev.contains(v) {
                assert(0 <= v < (k - 1) * w);
                assert((k - 1) * w <= k * w) by (nonlinear_arith)
                    requires
                        w >= 1,
                ;
            }
        }
    }
}

impl vEB {
    /// The stored count is the cardinality of the member set.
    proof fn lemma_count_is_len(self)
        requires
            self.wf(),
        ensures
            self@.finite(),
            self@.len() == self.spec_size(),
        decreases self.spec_universe(), 0int,
    {
        let u = self.spec_universe();
        if self.min is None {
            assert forall|x: int| !self.member(x) by {
                self.lemma_empty_no_member(x);
            }
            assert(self@ =~= Set::<int>::empty());
        } else if u == 2 {
            if self.smin() == self.smax() {
                assert(self@ =~= Set::<int>::empty().insert(self.smin()));
            } else {
                assert(self@ =~= Set::<int>::empty().insert(self.smin()).insert(self.smax()));
            }
        } else {
            lemma_universe_split(u);
            let w = lower_sqrt(u);
            let up = upper_sqrt(u);
            let cl = self.clusters@;
            lemma_below_upto_len(cl, w, up);
            let b = below_upto(cl, w, up);
            assert forall|v: int| #[trigger] self@.contains(v) implies b.insert(
                self.smin(),
            ).contains(v) by {
                if v != self.smin() {
                    self.lemma_member_below(v);
                    let h = spec_high(u, v);
                    let l = spec_low(u, v);
                    lemma_split_value(u, v);
                    assert(v - h * w == l);
                    assert(cl[h].member(v - h * w));
                    lemma_below_upto_member(cl, w, up, v);
                }
            }
            assert forall|v: int| #[trigger] b.insert(self.smin()).contains(v) implies self@
                .contains(v) by {
                if v != self.smin() {
                    lemma_below_upto_member(cl, w, up, v);
                    let i = choose|i: int| 0 <= i < up && #[trigger] cl[i].member(v - i * w);
                    let j = v - i * w;
                    cl[i].lemma_member_bounds(j);
                    lemma_join_pair(u, i, j);
                    assert(spec_index(u, i, j) == v);
                    self.lemma_below_member(v);
                } else {
                    self.lemma_extremes_member();
                }
            }
            assert(self@ =~= b.insert(self.smin()));
            assert(!b.contains(self.smin())) by {
                if b.contains(self.smin()) {
                    lemma_below_upto_member(cl, w, up, self.smin());
                    let i = choose|i: int|
                        0 <= i < up && #[trigger] cl[i].member(self.smin() - i * w);
                    let j = self.smin() - i * w;
                    cl[i].lemma_member_bounds(j);
                    lemma_join_pair(u, i, j);
                    assert(spec_index(u, i, j) == self.smin());
                }
            }
            assert(cl.take(up) =~= cl);
        }
    }

    /// Order consistency for this set: from its least element `m` (what
    /// `min` returns), the successor chain enumerates every element in
    /// strictly increasing order and then ends.
    pub proof fn lemma_enumeration(self, m: int)
        requires
            self.wf(),
            self@.contains(m),
            forall|z: int| self@.contains(z) ==> m <= z,
        ensures
            forall|z: int|
                self@.contains(z) <==> (z == m || crate::laws::succ_chain(
                    self@,
                    self.spec_universe(),
                    m,
                ).contains(z)),
            forall|i: int|
                0 <= i < crate::laws::succ_chain(self@, self.spec_universe(), m).len() ==> m
                    < #[trigger] crate::laws::succ_chain(self@, self.spec_universe(), m)[i],
            forall|i: int|
                0 <= i < crate::laws::succ_chain(self@, self.spec_universe(), m).len() - 1
                    ==> #[trigger] crate::laws::succ_chain(self@, self.spec_universe(), m)[i]
                    < crate::laws::succ_chain(self@, self.spec_universe(), m)[i + 1],
    {
        assert forall|z: int| self@.contains(z) implies m <= z && z < self.spec_universe() by {
            self.lemma_member_bounds(z);
        }
        crate::laws::lemma_enumeration_from_min(self@, self.spec_universe(), m);
    }

    /// The stored size is the exact number of distinct members, and never
    /// exceeds the universe size.
    pub proof fn lemma_size_is_cardinality(self)
        requires
            self.wf(),
        ensures
            self@.finite(),
            self@.len() == self.spec_size(),
            0 <= self.spec_size() <= self.spec_universe(),
    {
        self.lemma_count_is_len();
        let u = self.spec_universe();
        let range = vstd::set_lib::set_int_range(0, u);
        assert forall|x: int| self@.contains(x) implies range.contains(x) by {
            self.lemma_member_bounds(x);
        }
        assert(self@.subset_of(range));
        vstd::set_lib::lemma_int_range(0, u);
        vstd::set_lib::lemma_len_subset(self@, range);
    }
}

} // verus!
