//! Sets of device addresses that can be read out in a stable, ascending order.

use vstd::prelude::*;

use crate::text::{
    lemma_precedes_asymmetric, lemma_precedes_total, lemma_precedes_transitive, order, precedes,
    texts, Order,
};

verus! {

/// Every element comes strictly before all later ones.
pub open spec fn strictly_ascending(q: Seq<Seq<char>>) -> bool {
    forall|i: int, j: int| 0 <= i < j < q.len() ==> precedes(#[trigger] q[i], #[trigger] q[j])
}

/// `q` holds the elements of `s`, each once, in ascending order.
pub open spec fn lists(q: Seq<Seq<char>>, s: Set<Seq<char>>) -> bool {
    &&& strictly_ascending(q)
    &&& q.to_set() == s
}

/// The elements of the finite set `s` in ascending order.
pub open spec fn ascending(s: Set<Seq<char>>) -> Seq<Seq<char>> {
    choose|q: Seq<Seq<char>>| lists(q, s)
}

proof fn lemma_drop_last_lists(q: Seq<Seq<char>>, s: Set<Seq<char>>)
    requires
        lists(q, s),
        q.len() > 0,
    ensures
        lists(q.drop_last(), s.remove(q.last())),
        s.contains(q.last()),
{
    let r = q.drop_last();
    assert(strictly_ascending(r)) by {
        assert forall|i: int, j: int| 0 <= i < j < r.len() implies precedes(
            #[trigger] r[i],
            #[trigger] r[j],
        ) by {
            assert(r[i] == q[i] && r[j] == q[j]);
        }
    }
    assert(q.contains(q.last()));
    assert forall|m: Seq<char>| r.to_set().contains(m) <==> s.remove(q.last()).contains(m) by {
        if r.contains(m) {
            let i = r.index_of(m);
            assert(q[i] == m);
            lemma_precedes_asymmetric(q[i], q[q.len() - 1]);
        }
        if s.contains(m) && m != q.last() {
            assert(q.contains(m));
            let i = q.index_of(m);
            assert(r[i] == m);
        }
    }
    assert(r.to_set() =~= s.remove(q.last()));
}

/// A set has no two ascending listings.
pub proof fn lemma_listing_unique(p: Seq<Seq<char>>, q: Seq<Seq<char>>, s: Set<Seq<char>>)
    requires
        lists(p, s),
        lists(q, s),
    ensures
        p == q,
    decreases p.len(),
{
    if p.len() == 0 {
        if q.len() > 0 {
            assert(q.contains(q[0]));
            assert(p.to_set().contains(q[0]));
        }
        assert(p =~= q);
    } else {
        assert(p.contains(p.last()));
        assert(q.to_set().contains(p.last()));
        let i = q.index_of(p.last());
        assert(q.contains(q.last()));
        assert(p.to_set().contains(q.last()));
        let j = p.index_of(q.last());
        if i < q.len() - 1 {
            assert(precedes(q[i], q[q.len() - 1]));
            if j < p.len() - 1 {
                assert(precedes(p[j], p[p.len() - 1]));
            }
            lemma_precedes_asymmetric(p.last(), q.last());
        }
        lemma_drop_last_lists(p, s);
        lemma_drop_last_lists(q, s);
        lemma_listing_unique(p.drop_last(), q.drop_last(), s.remove(p.last()));
        assert(p =~= p.drop_last().push(p.last()));
        assert(q =~= q.drop_last().push(q.last()));
    }
}

/// Whatever lists `s` in ascending order is `ascending(s)`.
pub proof fn lemma_ascending(q: Seq<Seq<char>>, s: Set<Seq<char>>)
    requires
        lists(q, s),
    ensures
        ascending(s) == q,
{
    lemma_listing_unique(ascending(s), q, s);
}

/// What passes a test stays in order.
pub proof fn lemma_filter_lists(
    q: Seq<Seq<char>>,
    s: Set<Seq<char>>,
    pred: spec_fn(Seq<char>) -> bool,
)
    requires
        lists(q, s),
    ensures
        lists(q.filter(pred), s.filter(pred)),
    decreases q.len(),
{
    reveal(Seq::filter);
    if q.len() == 0 {
        assert(q.filter(pred) =~= q);
        assert(s.filter(pred) =~= s);
    } else {
        let last = q.last();
        let rest = q.drop_last();
        lemma_drop_last_lists(q, s);
        lemma_filter_lists(rest, s.remove(last), pred);
        let r = rest.filter(pred);
        if pred(last) {
            let f = q.filter(pred);
            assert(f == r.push(last));
            assert forall|i: int, j: int| 0 <= i < j < f.len() implies precedes(
                #[trigger] f[i],
                #[trigger] f[j],
            ) by {
                assert(f[i] == r[i]);
                if j == r.len() {
                    assert(r.to_set().contains(r[i]));
                    assert(s.remove(last).contains(r[i]));
                    assert(rest.to_set().contains(r[i]));
                    let k = rest.index_of(r[i]);
                    assert(precedes(q[k], q[q.len() - 1]));
                } else {
                    assert(f[j] == r[j]);
                }
            }
            assert forall|m: Seq<char>| f.to_set().contains(m) <==> s.filter(pred).contains(m) by {
                if f.contains(m) {
                    let k = f.index_of(m);
                    if k < r.len() {
                        assert(r[k] == m);
                        assert(r.to_set().contains(m));
                    }
                }
                if s.filter(pred).contains(m) {
                    if m == last {
                        assert(f[r.len() as int] == m);
                    } else {
                        assert(s.remove(last).filter(pred).contains(m));
                        assert(r.contains(m));
                        let k = r.index_of(m);
                        assert(f[k] == m);
                    }
                }
            }
            assert(f.to_set() =~= s.filter(pred));
        } else {
            assert(s.remove(last).filter(pred) =~= s.filter(pred));
        }
    }
}

/// A new element goes behind all smaller ones and before all greater ones.
proof fn lemma_insert_lists(q: Seq<Seq<char>>, s: Set<Seq<char>>, k: int, m: Seq<char>)
    requires
        lists(q, s),
        0 <= k <= q.len(),
        k > 0 ==> precedes(q[k - 1], m),
        k < q.len() ==> precedes(m, q[k]),
    ensures
        lists(q.insert(k, m), s.insert(m)),
        !s.contains(m),
{
    let r = q.insert(k, m);
    assert forall|i: int| 0 <= i < k implies precedes(#[trigger] q[i], m) by {
        if i < k - 1 {
            lemma_precedes_transitive(q[i], q[k - 1], m);
        }
    }
    assert forall|i: int| k <= i < q.len() implies precedes(m, #[trigger] q[i]) by {
        if k < i {
            lemma_precedes_transitive(m, q[k], q[i]);
        }
    }
    assert forall|i: int, j: int| 0 <= i < j < r.len() implies precedes(
        #[trigger] r[i],
        #[trigger] r[j],
    ) by {
        let a = if i < k { q[i] } else if i == k { m } else { q[i - 1] };
        let b = if j < k { q[j] } else if j == k { m } else { q[j - 1] };
        assert(r[i] == a && r[j] == b);
    }
    assert forall|x: Seq<char>| r.to_set().contains(x) <==> s.insert(m).contains(x) by {
        if r.contains(x) {
            let i = r.index_of(x);
            if i < k {
                assert(q[i] == x);
                assert(q.to_set().contains(x));
            } else if i > k {
                assert(q[i - 1] == x);
                assert(q.to_set().contains(x));
            }
        }
        if x == m {
            assert(r[k] == x);
        } else if s.contains(x) {
            assert(q.contains(x));
            let i = q.index_of(x);
            if i < k {
                assert(r[i] == x);
            } else {
                assert(r[i + 1] == x);
            }
        }
    }
    assert(r.to_set() =~= s.insert(m));
    if s.contains(m) {
        assert(q.contains(m));
        let i = q.index_of(m);
        lemma_precedes_asymmetric(q[i], q[i]);
    }
}

/// How many elements at the front of `q` come before `m`.
spec fn rank(q: Seq<Seq<char>>, m: Seq<char>) -> nat
    decreases q.len(),
{
    if q.len() == 0 {
        0
    } else if precedes(q.last(), m) {
        q.len()
    } else {
        rank(q.drop_last(), m)
    }
}

proof fn lemma_rank(q: Seq<Seq<char>>, m: Seq<char>)
    ensures
        rank(q, m) <= q.len(),
        rank(q, m) > 0 ==> precedes(q[rank(q, m) - 1], m),
        rank(q, m) < q.len() ==> !precedes(q[rank(q, m) as int], m),
    decreases q.len(),
{
    if q.len() > 0 && !precedes(q.last(), m) {
        lemma_rank(q.drop_last(), m);
    }
}

/// Every finite set can be listed in ascending order.
pub proof fn lemma_ascending_finite(s: Set<Seq<char>>)
    requires
        s.finite(),
    ensures
        lists(ascending(s), s),
    decreases s.len(),
{
    if s.len() == 0 {
        let q = Seq::<Seq<char>>::empty();
        assert(q.to_set() =~= s);
        assert(lists(q, s));
    } else {
        let m = s.choose();
        let t = s.remove(m);
        lemma_ascending_finite(t);
        let q = ascending(t);
        let k = rank(q, m) as int;
        lemma_rank(q, m);
        if k < q.len() {
            assert(q.contains(q[k]));
            assert(t.contains(q[k]));
            lemma_precedes_total(q[k], m);
        }
        lemma_insert_lists(q, t, k, m);
        assert(t.insert(m) =~= s);
        assert(lists(q.insert(k, m), s));
    }
}

/// Taking one element out keeps the order.
proof fn lemma_remove_lists(q: Seq<Seq<char>>, s: Set<Seq<char>>, k: int)
    requires
        lists(q, s),
        0 <= k < q.len(),
    ensures
        lists(q.remove(k), s.remove(q[k])),
        s.contains(q[k]),
{
    let r = q.remove(k);
    let m = q[k];
    assert forall|i: int, j: int| 0 <= i < j < r.len() implies precedes(
        #[trigger] r[i],
        #[trigger] r[j],
    ) by {
        let a = if i < k { i } else { i + 1 };
        let b = if j < k { j } else { j + 1 };
        assert(r[i] == q[a] && r[j] == q[b]);
    }
    assert(q.contains(m));
    assert forall|x: Seq<char>| r.to_set().contains(x) <==> s.remove(m).contains(x) by {
        if r.contains(x) {
            let i = r.index_of(x);
            let a = if i < k { i } else { i + 1 };
            assert(q[a] == x);
            assert(q.to_set().contains(x));
            if a < k {
                lemma_precedes_asymmetric(q[a], q[k]);
            } else {
                lemma_precedes_asymmetric(q[k], q[a]);
            }
        }
        if s.contains(x) && x != m {
            assert(q.contains(x));
            let i = q.index_of(x);
            if i < k {
                assert(r[i] == x);
            } else {
                assert(r[i - 1] == x);
            }
        }
    }
    assert(r.to_set() =~= s.remove(m));
}

/// A set of device addresses, kept in ascending order.
pub struct Roster {
    macs: Vec<String>,
}

impl View for Roster {
    type V = Set<Seq<char>>;

    closed spec fn view(&self) -> Set<Seq<char>> {
        texts(self.macs@).to_set()
    }
}

impl Roster {
    /// The addresses are in ascending order and none occurs twice.
    pub closed spec fn wf(&self) -> bool {
        strictly_ascending(texts(self.macs@))
    }

    /// The addresses in the order in which `at` numbers them.
    pub closed spec fn listing(&self) -> Seq<Seq<char>> {
        texts(self.macs@)
    }

    /// The listing of a roster is the ascending order of its addresses.
    pub proof fn lemma_listing(&self)
        requires
            self.wf(),
        ensures
            lists(self.listing(), self@),
            ascending(self@) == self.listing(),
    {
        lemma_ascending(self.listing(), self@);
    }

    /// A roster is finite and has as many addresses as its listing.
    pub proof fn lemma_len(&self)
        requires
            self.wf(),
        ensures
            self@.finite(),
            self@.len() == self.listing().len(),
    {
        let q = self.listing();
        assert(q.no_duplicates()) by {
            assert forall|i: int, j: int|
                0 <= i < q.len() && 0 <= j < q.len() && i != j implies q[i] != q[j] by {
                if i < j {
                    lemma_precedes_asymmetric(q[i], q[j]);
                } else {
                    lemma_precedes_asymmetric(q[j], q[i]);
                }
            }
        }
        q.unique_seq_to_set();
        vstd::seq_lib::seq_to_set_is_finite(q);
    }

    /// An empty roster.
    pub fn new() -> (r: Roster)
        ensures
            r.wf(),
            r@ == Set::<Seq<char>>::empty(),
    {
        let r = Roster { macs: Vec::new() };
        assert(r@ =~= Set::<Seq<char>>::empty());
        r
    }

    /// How many addresses there are.
    pub fn len(&self) -> (n: usize)
        requires
            self.wf(),
        ensures
            n == self@.len(),
            n == self.listing().len(),
    {
        proof {
            self.lemma_len();
        }
        self.macs.len()
    }

    /// The address at position `i` of the listing.
    pub fn at(&self, i: usize) -> (mac: &String)
        requires
            i < self.listing().len(),
        ensures
            mac@ == self.listing()[i as int],
    {
        &self.macs[i]
    }

    /// The first position whose address does not come before `mac`.
    fn seek(&self, mac: &str) -> (k: usize)
        requires
            self.wf(),
        ensures
            k <= self.listing().len(),
            k > 0 ==> precedes(self.listing()[k - 1], mac@),
            k < self.listing().len() ==> !precedes(self.listing()[k as int], mac@),
    {
        let mut k: usize = 0;
        while k < self.macs.len()
            invariant
                k <= self.macs.len(),
                k > 0 ==> precedes(self.listing()[k - 1], mac@),
            ensures
                k <= self.macs.len(),
                k > 0 ==> precedes(self.listing()[k - 1], mac@),
                k < self.macs.len() ==> !precedes(self.listing()[k as int], mac@),
            decreases self.macs.len() - k,
        {
            match order(self.macs[k].as_str(), mac) {
                Order::Before => {
                    k = k + 1;
                },
                _ => {
                    break;
                },
            }
        }
        k
    }

    /// Where `mac` stands in the listing, if it is there.
    fn find(&self, mac: &str) -> (r: Option<usize>)
        requires
            self.wf(),
        ensures
            r is Some <==> self@.contains(mac@),
            r matches Some(k) ==> k < self.listing().len() && self.listing()[k as int] == mac@,
    {
        let k = self.seek(mac);
        if k < self.macs.len() {
            match order(self.macs[k].as_str(), mac) {
                Order::Same => {
                    assert(self.listing().contains(self.listing()[k as int]));
                    return Some(k);
                },
                _ => {
                    proof {
                        lemma_insert_lists(self.listing(), self@, k as int, mac@);
                    }
                },
            }
        } else {
            proof {
                lemma_insert_lists(self.listing(), self@, k as int, mac@);
            }
        }
        None
    }

    /// Whether `mac` is in the set.
    pub fn contains(&self, mac: &str) -> (r: bool)
        requires
            self.wf(),
        ensures
            r == self@.contains(mac@),
    {
        match self.find(mac) {
            Some(_) => true,
            None => false,
        }
    }

    /// Puts `mac` into the set.
    pub fn insert(&mut self, mac: &str)
        requires
            old(self).wf(),
        ensures
            final(self).wf(),
            final(self)@ == old(self)@.insert(mac@),
    {
        if self.contains(mac) {
            assert(self@.insert(mac@) =~= self@);
            return;
        }
        let k = self.seek(mac);
        let ghost before = self.listing();
        proof {
            if k < before.len() {
                assert(before.contains(before[k as int]));
                assert(self@.contains(before[k as int]));
                lemma_precedes_total(before[k as int], mac@);
            }
            lemma_insert_lists(before, self@, k as int, mac@);
        }
        self.macs.insert(k, mac.to_owned());
        assert(self.listing() =~= before.insert(k as int, mac@));
    }

    /// Takes `mac` out of the set and says whether it was there.
    pub fn remove(&mut self, mac: &str) -> (r: bool)
        requires
            old(self).wf(),
        ensures
            final(self).wf(),
            r == old(self)@.contains(mac@),
            final(self)@ == old(self)@.remove(mac@),
    {
        match self.find(mac) {
            Some(k) => {
                let ghost before = self.listing();
                proof {
                    lemma_remove_lists(before, self@, k as int);
                }
                let _ = self.macs.remove(k);
                assert(self.listing() =~= before.remove(k as int));
                true
            },
            None => {
                assert(self@.remove(mac@) =~= self@);
                false
            },
        }
    }

    /// All addresses in ascending order.
    pub fn to_vec(&self) -> (r: Vec<String>)
        requires
            self.wf(),
        ensures
            texts(r@) == ascending(self@),
    {
        let mut r: Vec<String> = Vec::new();
        let mut i: usize = 0;
        while i < self.macs.len()
            invariant
                i <= self.macs.len(),
                texts(r@) == self.listing().take(i as int),
            decreases self.macs.len() - i,
        {
            let ghost done = r@;
            r.push(self.macs[i].clone());
            assert(texts(r@) =~= texts(done).push(self.listing()[i as int]));
            assert(self.listing().take(i + 1) =~= self.listing().take(i as int).push(
                self.listing()[i as int],
            ));
            i = i + 1;
        }
        proof {
            self.lemma_listing();
            assert(self.listing().take(i as int) =~= self.listing());
        }
        r
    }
}

} // verus!
