//! Names in order: a map from names, and sorted lists of names.

use vstd::prelude::*;
use crate::seqs;
use crate::strings;

verus! {

/// The order of strings: lexicographic, by the numbers of the characters.
pub open spec fn before(a: Seq<char>, b: Seq<char>) -> bool
    decreases a.len(),
{
    if b.len() == 0 {
        false
    } else if a.len() == 0 {
        true
    } else if a[0] == b[0] {
        before(a.skip(1), b.skip(1))
    } else {
        a[0] < b[0]
    }
}

/// Names in ascending order, none twice.
pub open spec fn ascending(s: Seq<Seq<char>>) -> bool {
    forall|i: int, j: int| 0 <= i < j < s.len() ==> before(#[trigger] s[i], #[trigger] s[j])
}

/// An ascending list with one name more.
pub open spec fn with_name(s: Seq<Seq<char>>, x: Seq<char>) -> Seq<Seq<char>>
    decreases s.len(),
{
    if s.len() == 0 {
        seq![x]
    } else if x == s[0] {
        s
    } else if before(x, s[0]) {
        seq![x] + s
    } else {
        seq![s[0]] + with_name(s.skip(1), x)
    }
}

/// A list that has a name is not changed by it.
pub proof fn lemma_with_name_known(s: Seq<Seq<char>>, x: Seq<char>)
    requires
        ascending(s),
        s.contains(x),
    ensures
        with_name(s, x) == s,
    decreases s.len(),
{
    let i = choose|i: int| 0 <= i < s.len() && s[i] == x;
    if i > 0 {
        let t = s.skip(1);
        assert(before(s[0], s[i]));
        lemma_before_total(s[0], x);
        assert(t[i - 1] == x);
        assert forall|a: int, b: int| 0 <= a < b < t.len() implies before(
            #[trigger] t[a],
            #[trigger] t[b],
        ) by {
            assert(before(s[a + 1], s[b + 1]));
        }
        lemma_with_name_known(t, x);
        assert(seq![s[0]] + t =~= s);
    }
}

/// The names of a list in ascending order, each once.
pub open spec fn sorted(s: Seq<Seq<char>>) -> Seq<Seq<char>>
    decreases s.len(),
{
    if s.len() == 0 {
        s
    } else {
        with_name(sorted(s.drop_last()), s.last())
    }
}

/// The names of the entries of a map.
pub open spec fn keys<X>(s: Seq<(Seq<char>, X)>) -> Seq<Seq<char>> {
    Seq::new(s.len(), |i: int| s[i].0)
}

/// The value that belongs to a name.
pub open spec fn lookup<X>(s: Seq<(Seq<char>, X)>, k: Seq<char>) -> Option<X>
    decreases s.len(),
{
    if s.len() == 0 {
        None
    } else if s[0].0 == k {
        Some(s[0].1)
    } else {
        lookup(s.skip(1), k)
    }
}

/// The entries of a map in which `k` has the value `x`, in place of any other.
pub open spec fn with_entry<X>(s: Seq<(Seq<char>, X)>, k: Seq<char>, x: X) -> Seq<(Seq<char>, X)>
    decreases s.len(),
{
    if s.len() == 0 {
        seq![(k, x)]
    } else if k == s[0].0 {
        s.update(0, (k, x))
    } else if before(k, s[0].0) {
        seq![(k, x)] + s
    } else {
        seq![s[0]] + with_entry(s.skip(1), k, x)
    }
}

proof fn lemma_before_irreflexive(a: Seq<char>)
    ensures
        !before(a, a),
    decreases a.len(),
{
    if a.len() > 0 {
        lemma_before_irreflexive(a.skip(1));
    }
}

pub proof fn lemma_before_total(a: Seq<char>, b: Seq<char>)
    ensures
        !before(a, a),
        before(a, b) || before(b, a) || a == b,
        !(before(a, b) && before(b, a)),
        before(a, b) ==> a != b,
    decreases a.len(),
{
    lemma_before_irreflexive(a);
    if a.len() > 0 && b.len() > 0 && a[0] == b[0] {
        lemma_before_total(a.skip(1), b.skip(1));
        if a.skip(1) == b.skip(1) {
            assert(a =~= seq![a[0]] + a.skip(1));
            assert(b =~= seq![b[0]] + b.skip(1));
        }
    } else if a.len() == 0 && b.len() == 0 {
        assert(a =~= b);
    }
}

pub proof fn lemma_before_transitive(a: Seq<char>, b: Seq<char>, c: Seq<char>)
    requires
        before(a, b),
        before(b, c),
    ensures
        before(a, c),
    decreases a.len(),
{
    if a.len() > 0 && b.len() > 0 && c.len() > 0 && a[0] == b[0] && b[0] == c[0] {
        lemma_before_transitive(a.skip(1), b.skip(1), c.skip(1));
    }
}

pub proof fn lemma_with_name(s: Seq<Seq<char>>, x: Seq<char>)
    requires
        ascending(s),
    ensures
        ascending(with_name(s, x)),
        forall|y: Seq<char>| #[trigger]
            with_name(s, x).contains(y) <==> s.contains(y) || y == x,
    decreases s.len(),
{
    let r = with_name(s, x);
    if s.len() == 0 {
        assert(r[0] == x);
    } else if x == s[0] {
    } else if before(x, s[0]) {
        assert forall|i: int, j: int| 0 <= i < j < r.len() implies before(
            #[trigger] r[i],
            #[trigger] r[j],
        ) by {
            if i > 0 {
                assert(before(s[i - 1], s[j - 1]));
            } else if j > 1 {
                assert(before(s[0], s[j - 1]));
                lemma_before_transitive(x, s[0], s[j - 1]);
            }
        }
        assert forall|y: Seq<char>| #[trigger] r.contains(y) <==> s.contains(y) || y == x by {
            if s.contains(y) {
                let i = choose|i: int| 0 <= i < s.len() && s[i] == y;
                assert(r[i + 1] == y);
            }
            if y == x {
                assert(r[0] == y);
            }
            if r.contains(y) {
                let i = choose|i: int| 0 <= i < r.len() && r[i] == y;
                if i > 0 {
                    assert(s[i - 1] == y);
                }
            }
        }
    } else {
        let t = s.skip(1);
        assert forall|i: int, j: int| 0 <= i < j < t.len() implies before(
            #[trigger] t[i],
            #[trigger] t[j],
        ) by {
            assert(before(s[i + 1], s[j + 1]));
        }
        lemma_with_name(t, x);
        lemma_before_total(x, s[0]);
        let q = with_name(t, x);
        assert forall|i: int, j: int| 0 <= i < j < r.len() implies before(
            #[trigger] r[i],
            #[trigger] r[j],
        ) by {
            if i > 0 {
                assert(before(q[i - 1], q[j - 1]));
            } else {
                let y = q[j - 1];
                assert(q.contains(y));
                if y != x {
                    let k = choose|k: int| 0 <= k < t.len() && t[k] == y;
                    assert(before(s[0], s[k + 1]));
                }
            }
        }
        assert forall|y: Seq<char>| #[trigger] r.contains(y) <==> s.contains(y) || y == x by {
            if s.contains(y) {
                let i = choose|i: int| 0 <= i < s.len() && s[i] == y;
                if i > 0 {
                    assert(t[i - 1] == y);
                    assert(q.contains(y));
                    let k = choose|k: int| 0 <= k < q.len() && q[k] == y;
                    assert(r[k + 1] == y);
                } else {
                    assert(r[0] == y);
                }
            }
            if y == x {
                assert(q.contains(y));
                let k = choose|k: int| 0 <= k < q.len() && q[k] == y;
                assert(r[k + 1] == y);
            }
            if r.contains(y) {
                let i = choose|i: int| 0 <= i < r.len() && r[i] == y;
                if i > 0 {
                    assert(q[i - 1] == y);
                    assert(q.contains(y));
                    if y != x {
                        let k = choose|k: int| 0 <= k < t.len() && t[k] == y;
                        assert(s[k + 1] == y);
                    }
                } else {
                    assert(s[0] == y);
                }
            }
        }
    }
}

/// Sorting keeps exactly the names and leaves each once, in order.
pub proof fn lemma_sorted(s: Seq<Seq<char>>)
    ensures
        ascending(sorted(s)),
        forall|y: Seq<char>| #[trigger] sorted(s).contains(y) <==> s.contains(y),
    decreases s.len(),
{
    if s.len() > 0 {
        let t = s.drop_last();
        lemma_sorted(t);
        lemma_with_name(sorted(t), s.last());
        assert forall|y: Seq<char>| #[trigger] sorted(s).contains(y) <==> s.contains(y) by {
            if s.contains(y) {
                let i = choose|i: int| 0 <= i < s.len() && s[i] == y;
                if i < t.len() {
                    assert(t[i] == y);
                    assert(t.contains(y));
                }
            }
            if sorted(s).contains(y) {
                if y != s.last() {
                    assert(t.contains(y));
                    let i = choose|i: int| 0 <= i < t.len() && t[i] == y;
                    assert(s[i] == y);
                } else {
                    assert(s[s.len() - 1] == y);
                }
            }
        }
    }
}

/// A map reads back what was written to it, and what was not written to stays.
pub proof fn lemma_lookup_with_entry<X>(
    s: Seq<(Seq<char>, X)>,
    k: Seq<char>,
    x: X,
    q: Seq<char>,
)
    requires
        ascending(keys(s)),
    ensures
        lookup(with_entry(s, k, x), q) == if q == k {
            Some(x)
        } else {
            lookup(s, q)
        },
    decreases s.len(),
{
    let r = with_entry(s, k, x);
    if s.len() == 0 {
        assert(r[0] == (k, x));
        assert(r.skip(1) =~= s);
    } else if k == s[0].0 {
        assert(r.skip(1) =~= s.skip(1));
    } else if before(k, s[0].0) {
        assert(r[0] == (k, x));
        assert(r.skip(1) =~= s);
    } else {
        lemma_keys_tail(s);
        lemma_lookup_with_entry(s.skip(1), k, x, q);
        assert(r[0] == s[0]);
        assert(r.skip(1) =~= with_entry(s.skip(1), k, x));
    }
}

proof fn lemma_keys_tail<X>(s: Seq<(Seq<char>, X)>)
    requires
        ascending(keys(s)),
        s.len() > 0,
    ensures
        ascending(keys(s.skip(1))),
        keys(s.skip(1)) == keys(s).skip(1),
{
    let t = s.skip(1);
    assert(keys(t) =~= keys(s).skip(1));
    assert forall|i: int, j: int| 0 <= i < j < keys(t).len() implies before(
        #[trigger] keys(t)[i],
        #[trigger] keys(t)[j],
    ) by {
        assert(before(keys(s)[i + 1], keys(s)[j + 1]));
    }
}

/// A map stays in order under writes.
pub proof fn lemma_with_entry_ascending<X>(s: Seq<(Seq<char>, X)>, k: Seq<char>, x: X)
    requires
        ascending(keys(s)),
    ensures
        ascending(keys(with_entry(s, k, x))),
        keys(with_entry(s, k, x)) == with_name(keys(s), k),
    decreases s.len(),
{
    let r = with_entry(s, k, x);
    lemma_with_name(keys(s), k);
    if s.len() == 0 {
        assert(keys(r) =~= with_name(keys(s), k));
    } else if k == s[0].0 {
        assert(keys(r) =~= with_name(keys(s), k));
    } else if before(k, s[0].0) {
        assert(keys(r) =~= with_name(keys(s), k));
    } else {
        lemma_keys_tail(s);
        lemma_with_entry_ascending(s.skip(1), k, x);
        assert(keys(r) =~= with_name(keys(s), k));
    }
}

/// Writing the value that a name has changes nothing.
pub proof fn lemma_with_entry_same<X>(s: Seq<(Seq<char>, X)>, k: Seq<char>)
    requires
        ascending(keys(s)),
        lookup(s, k) is Some,
    ensures
        with_entry(s, k, lookup(s, k)->0) == s,
    decreases s.len(),
{
    let x = lookup(s, k)->0;
    if s[0].0 == k {
        assert(s.update(0, (k, x)) =~= s);
    } else {
        let t = s.skip(1);
        lemma_keys_tail(s);
        lemma_lookup_keys(t, k);
        let i = choose|i: int| 0 <= i < keys(t).len() && keys(t)[i] == k;
        assert(before(keys(s)[0], keys(s)[i + 1]));
        lemma_before_total(s[0].0, k);
        lemma_with_entry_same(t, k);
        assert(seq![s[0]] + t =~= s);
    }
}

/// A map in order reads each of its entries back.
pub proof fn lemma_lookup_at<X>(s: Seq<(Seq<char>, X)>, i: int)
    requires
        ascending(keys(s)),
        0 <= i < s.len(),
    ensures
        lookup(s, s[i].0) == Some(s[i].1),
    decreases s.len(),
{
    if i > 0 {
        assert(before(keys(s)[0], keys(s)[i]));
        lemma_before_irreflexive(s[i].0);
        lemma_keys_tail(s);
        assert(s.skip(1)[i - 1] == s[i]);
        lemma_lookup_at(s.skip(1), i - 1);
    }
}

/// A name has a value exactly if it is one of the keys.
pub proof fn lemma_lookup_keys<X>(s: Seq<(Seq<char>, X)>, k: Seq<char>)
    ensures
        lookup(s, k) is Some <==> keys(s).contains(k),
        lookup(s, k) is Some ==> exists|i: int|
            0 <= i < s.len() && (#[trigger] s[i]).0 == k && lookup(s, k) == Some(s[i].1),
    decreases s.len(),
{
    if s.len() > 0 {
        let t = s.skip(1);
        lemma_lookup_keys(t, k);
        if s[0].0 == k {
            assert(keys(s)[0] == k);
        } else {
            if lookup(t, k) is Some {
                let i = choose|i: int|
                    0 <= i < t.len() && (#[trigger] t[i]).0 == k && lookup(t, k) == Some(t[i].1);
                assert(s[i + 1] == t[i]);
                assert(keys(s)[i + 1] == k);
            }
            if keys(s).contains(k) {
                let i = choose|i: int| 0 <= i < keys(s).len() && keys(s)[i] == k;
                assert(keys(t)[i - 1] == k);
            }
        }
    }
}

/// Whether a string comes before another.
pub fn comes_before(a: &str, b: &str) -> (r: bool)
    ensures
        r == before(a@, b@),
{
    let v = strings::to_chars(a);
    let w = strings::to_chars(b);
    let mut i: usize = 0;
    proof {
        assert(v@.skip(0) =~= v@);
        assert(w@.skip(0) =~= w@);
    }
    loop
        invariant
            v@ == a@,
            w@ == b@,
            i <= v.len(),
            i <= w.len(),
            before(a@, b@) == before(v@.skip(i as int), w@.skip(i as int)),
        decreases v.len() - i,
    {
        if i == w.len() {
            return false;
        }
        if i == v.len() {
            return true;
        }
        if v[i] != w[i] {
            return v[i] < w[i];
        }
        proof {
            assert(v@.skip(i as int).skip(1) =~= v@.skip(i + 1));
            assert(w@.skip(i as int).skip(1) =~= w@.skip(i + 1));
        }
        i += 1;
    }
}

/// A map from names to values, kept in the order of the names.
#[derive(Debug)]
pub struct NameMap<V> {
    entries: Vec<(String, V)>,
}

impl<V: View> View for NameMap<V> {
    type V = Seq<(Seq<char>, V::V)>;

    closed spec fn view(&self) -> Seq<(Seq<char>, V::V)> {
        Seq::new(self.entries@.len(), |i: int| (self.entries@[i].0@, self.entries@[i].1@))
    }
}

impl<V> NameMap<V> {
    spec fn names(&self) -> Seq<Seq<char>> {
        Seq::new(self.entries@.len(), |i: int| self.entries@[i].0@)
    }

    #[verifier::type_invariant]
    spec fn in_order(&self) -> bool {
        ascending(self.names())
    }
}

impl<V: View> NameMap<V> {
    pub fn new() -> (r: NameMap<V>)
        ensures
            r@ == Seq::<(Seq<char>, V::V)>::empty(),
    {
        let entries: Vec<(String, V)> = Vec::new();
        let r = NameMap { entries };
        proof {
            assert(r@ =~= Seq::<(Seq<char>, V::V)>::empty());
        }
        r
    }

    pub fn len(&self) -> (r: usize)
        ensures
            r == self@.len(),
    {
        self.entries.len()
    }

    pub fn is_empty(&self) -> (r: bool)
        ensures
            r == (self@.len() == 0),
    {
        self.entries.len() == 0
    }

    /// The name of an entry.
    pub fn name_at(&self, i: usize) -> (r: &String)
        requires
            i < self@.len(),
        ensures
            r@ == self@[i as int].0,
    {
        &self.entries[i].0
    }

    /// The value of an entry.
    pub fn value_at(&self, i: usize) -> (r: &V)
        requires
            i < self@.len(),
        ensures
            r@ == self@[i as int].1,
            lookup(self@, self@[i as int].0) == Some(r@),
    {
        proof {
            use_type_invariant(self);
            assert(keys(self@) =~= self.names());
            lemma_lookup_at(self@, i as int);
        }
        &self.entries[i].1
    }

    /// The value that belongs to a name.
    pub fn get(&self, name: &str) -> (r: Option<&V>)
        ensures
            match r {
                Some(v) => lookup(self@, name@) == Some(v@),
                None => lookup(self@, name@) is None,
            },
            ascending(keys(self@)),
    {
        let mut i: usize = 0;
        proof {
            use_type_invariant(self);
            assert(keys(self@) =~= self.names());
            assert(self@.skip(0) =~= self@);
        }
        while i < self.entries.len()
            invariant
                i <= self.entries.len(),
                self.entries.len() == self@.len(),
                lookup(self@, name@) == lookup(self@.skip(i as int), name@),
                ascending(keys(self@)),
            decreases self.entries.len() - i,
        {
            proof {
                assert(self@.skip(i as int)[0] == self@[i as int]);
                assert(self@.skip(i as int).skip(1) =~= self@.skip(i + 1));
            }
            if strings::same(self.entries[i].0.as_str(), name) {
                return Some(&self.entries[i].1);
            }
            i += 1;
        }
        None
    }

    /// Gives a name a value, in place of any that it has.
    pub fn insert(&mut self, name: String, value: V)
        ensures
            final(self)@ == with_entry(old(self)@, name@, value@),
    {
        proof {
            use_type_invariant(&*self);
            assert(keys(self@) =~= self.names());
            assert(self@.skip(0) =~= self@);
        }
        let ghost s = self@;
        let ghost k = name@;
        let ghost x = value@;
        let n = self.entries.len();
        let mut i: usize = 0;
        while i < n && comes_before(self.entries[i].0.as_str(), name.as_str())
            invariant
                i <= n,
                n == self.entries.len(),
                self@ == s,
                s.len() == n,
                name@ == k,
                with_entry(s, k, x) == s.take(i as int) + with_entry(s.skip(i as int), k, x),
            decreases n - i,
        {
            proof {
                let t = s.skip(i as int);
                assert(t[0] == s[i as int]);
                lemma_before_total(s[i as int].0, k);
                assert(t.skip(1) =~= s.skip(i + 1));
                assert(s.take(i as int) + (seq![t[0]] + with_entry(t.skip(1), k, x))
                    =~= s.take(i + 1) + with_entry(s.skip(i + 1), k, x));
            }
            i += 1;
        }
        let mut entries: Vec<(String, V)> = Vec::new();
        std::mem::swap(&mut entries, &mut self.entries);
        let ghost t = s.skip(i as int);
        proof {
            lemma_with_entry_ascending(s, k, x);
            if i < n {
                assert(t[0] == s[i as int]);
                lemma_before_total(s[i as int].0, k);
            }
        }
        if i < n && strings::same(entries[i].0.as_str(), name.as_str()) {
            entries.set(i, (name, value));
            proof {
                assert(s.take(i as int) + t.update(0, (k, x)) =~= s.update(i as int, (k, x)));
                let m = NameMap { entries };
                assert(m@ =~= s.update(i as int, (k, x)));
                assert(keys(m@) =~= m.names());
            }
        } else {
            entries.insert(i, (name, value));
            proof {
                let m = NameMap { entries };
                if i < n {
                    assert(m@ =~= s.take(i as int) + (seq![(k, x)] + t));
                } else {
                    assert(m@ =~= s.take(i as int) + seq![(k, x)]);
                    assert(t.len() == 0);
                }
                assert(keys(m@) =~= m.names());
            }
        }
        self.entries = entries;
    }
}

/// A map to lists once more.
pub fn copy_lists<T: Copy>(m: &NameMap<Vec<T>>) -> (r: NameMap<Vec<T>>)
    ensures
        r@ == m@,
{
    let mut entries: Vec<(String, Vec<T>)> = Vec::new();
    let mut i: usize = 0;
    while i < m.entries.len()
        invariant
            i <= m.entries.len(),
            entries.len() == i,
            forall|j: int|
                0 <= j < i ==> (#[trigger] entries@[j]).0@ == m.entries@[j].0@ && entries@[j].1@
                    == m.entries@[j].1@,
        decreases m.entries.len() - i,
    {
        let mut list: Vec<T> = Vec::new();
        let mut j: usize = 0;
        while j < m.entries[i].1.len()
            invariant
                i < m.entries.len(),
                j <= m.entries[i as int].1.len(),
                list@ == m.entries[i as int].1@.take(j as int),
            decreases m.entries[i as int].1.len() - j,
        {
            list.push(m.entries[i].1[j]);
            j += 1;
        }
        proof {
            seqs::lemma_take_all(m.entries[i as int].1@);
        }
        entries.push((m.entries[i].0.clone(), list));
        i += 1;
    }
    proof {
        use_type_invariant(m);
        let c = NameMap { entries };
        assert(c.names() =~= m.names());
        assert(c@ =~= m@);
    }
    NameMap { entries }
}

/// The names of a list in ascending order, each once.
pub fn sort_names(list: &Vec<String>) -> (r: Vec<String>)
    ensures
        seqs::views(r@) == sorted(seqs::views(list@)),
{
    let mut out: Vec<String> = Vec::new();
    let mut i: usize = 0;
    let ghost all = seqs::views(list@);
    proof {
        assert(seqs::views(out@) =~= sorted(all.take(0)));
    }
    while i < list.len()
        invariant
            i <= list.len(),
            all == seqs::views(list@),
            seqs::views(out@) == sorted(all.take(i as int)),
        decreases list.len() - i,
    {
        let ghost s = seqs::views(out@);
        let ghost x = list@[i as int]@;
        let n = out.len();
        let mut j: usize = 0;
        proof {
            seqs::lemma_take_next(all, i as int);
            lemma_sorted(all.take(i as int));
            assert(s.skip(0) =~= s);
            assert(s.take(0) + with_name(s, x) =~= with_name(s, x));
        }
        while j < n && comes_before(out[j].as_str(), list[i].as_str())
            invariant
                j <= n,
                i < list.len(),
                n == out.len(),
                s == seqs::views(out@),
                x == list@[i as int]@,
                with_name(s, x) == s.take(j as int) + with_name(s.skip(j as int), x),
            decreases n - j,
        {
            proof {
                let t = s.skip(j as int);
                assert(t[0] == s[j as int]);
                lemma_before_total(s[j as int], x);
                assert(t.skip(1) =~= s.skip(j + 1));
                assert(s.take(j as int) + (seq![t[0]] + with_name(t.skip(1), x)) =~= s.take(j + 1)
                    + with_name(s.skip(j + 1), x));
            }
            j += 1;
        }
        let ghost t = s.skip(j as int);
        proof {
            if j < n {
                assert(t[0] == s[j as int]);
                lemma_before_total(s[j as int], x);
            }
        }
        if j < n && out[j] == list[i] {
            proof {
                assert(s.take(j as int) + t =~= s);
            }
        } else {
            out.insert(j, list[i].clone());
            proof {
                if j < n {
                    assert(seqs::views(out@) =~= s.take(j as int) + (seq![x] + t));
                } else {
                    assert(t.len() == 0);
                    assert(seqs::views(out@) =~= s.take(j as int) + seq![x]);
                }
            }
        }
        i += 1;
    }
    proof {
        seqs::lemma_take_all(all);
    }
    out
}

} // verus!
