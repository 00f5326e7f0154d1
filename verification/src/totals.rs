use vstd::prelude::*;
use crate::config::str_eq;
use vstd::utf8::{encode_utf8, encode_utf8_decode_utf8};
use vstd::string::StringSliceAdditionalSpecFns;

verus! {

/// The map that a list of (name, count) entries stands for.
pub open spec fn entries_map(es: Seq<(Seq<char>, nat)>) -> Map<Seq<char>, nat>
    decreases es.len(),
{
    if es.len() == 0 {
        Map::empty()
    } else {
        entries_map(es.drop_last()).insert(es.last().0, es.last().1)
    }
}

/// No two entries share a name.
pub open spec fn names_distinct(es: Seq<(Seq<char>, nat)>) -> bool {
    forall|i: int, j: int| 0 <= i < j < es.len() ==> (#[trigger] es[i]).0 != (#[trigger] es[j]).0
}

pub proof fn lemma_entries_map_dom(es: Seq<(Seq<char>, nat)>, k: Seq<char>)
    ensures
        entries_map(es).dom().contains(k) <==> exists|i: int| 0 <= i < es.len() && (#[trigger] es[i]).0 == k,
    decreases es.len(),
{
    if es.len() > 0 {
        lemma_entries_map_dom(es.drop_last(), k);
        if entries_map(es.drop_last()).dom().contains(k) {
            let i = choose|i: int| 0 <= i < es.drop_last().len() && (#[trigger] es.drop_last()[i]).0 == k;
            assert(es[i] == es.drop_last()[i]);
        }
        if exists|i: int| 0 <= i < es.len() && (#[trigger] es[i]).0 == k {
            let i = choose|i: int| 0 <= i < es.len() && (#[trigger] es[i]).0 == k;
            if i < es.len() - 1 {
                assert(es.drop_last()[i] == es[i]);
            }
        }
    }
}

pub proof fn lemma_entries_map_value(es: Seq<(Seq<char>, nat)>, i: int)
    requires
        names_distinct(es),
        0 <= i < es.len(),
    ensures
        entries_map(es).dom().contains(es[i].0),
        entries_map(es)[es[i].0] == es[i].1,
    decreases es.len(),
{
    if i < es.len() - 1 {
        assert(es.drop_last()[i] == es[i]);
        assert(es.last().0 != es[i].0);
        lemma_entries_map_value(es.drop_last(), i);
    }
}

/// Replacing the count of an entry is inserting its new count into the map.
pub proof fn lemma_entries_map_update(es: Seq<(Seq<char>, nat)>, i: int, v: nat)
    requires
        names_distinct(es),
        0 <= i < es.len(),
    ensures
        entries_map(es.update(i, (es[i].0, v))) == entries_map(es).insert(es[i].0, v),
    decreases es.len(),
{
    let es2 = es.update(i, (es[i].0, v));
    if i == es.len() - 1 {
        assert(es2.drop_last() =~= es.drop_last());
        lemma_entries_map_dom(es.drop_last(), es[i].0);
        assert(entries_map(es2) =~= entries_map(es).insert(es[i].0, v));
    } else {
        assert(es2.drop_last() =~= es.drop_last().update(i, (es[i].0, v)));
        assert(es.drop_last()[i] == es[i]);
        lemma_entries_map_update(es.drop_last(), i, v);
        assert(es.last().0 != es[i].0);
        assert(entries_map(es2) =~= entries_map(es).insert(es[i].0, v));
    }
}

/// The total of `name` in `m`, 0 when it has none.
pub open spec fn total_of(m: Map<Seq<char>, nat>, name: Seq<char>) -> nat {
    if m.dom().contains(name) { m[name] } else { 0 }
}

/// `m` with `n` lines added to the total of `name` (what `Totals::add` does).
pub open spec fn add_total(m: Map<Seq<char>, nat>, name: Seq<char>, n: nat) -> Map<Seq<char>, nat> {
    m.insert(name, total_of(m, name) + n)
}

/// Lines with code per language.
pub struct Totals {
    entries: Vec<(&'static str, usize)>,
}

impl Totals {
    /// The entries, in the order their languages were first added.
    pub closed spec fn entries(&self) -> Seq<(Seq<char>, nat)> {
        self.entries@.map_values(|e: (&'static str, usize)| (e.0@, e.1 as nat))
    }

    #[verifier::type_invariant]
    closed spec fn inv(self) -> bool {
        names_distinct(self.entries())
    }
}

impl View for Totals {
    type V = Map<Seq<char>, nat>;

    /// The total of each language that has one.
    closed spec fn view(&self) -> Map<Seq<char>, nat> {
        entries_map(self.entries())
    }
}

impl Totals {
    /// No totals yet.
    pub fn new() -> (r: Totals)
        ensures
            r@ == Map::<Seq<char>, nat>::empty(),
    {
        let r = Totals { entries: Vec::new() };
        assert(r.entries() =~= Seq::<(Seq<char>, nat)>::empty());
        r
    }

    /// The index of the entry of `name`.
    fn find(&self, name: &str) -> (r: Option<usize>)
        ensures
            r matches Some(i) ==> i < self.entries().len() && self.entries()[i as int].0 == name@,
            r is None ==> forall|i: int| 0 <= i < self.entries().len() ==> (#[trigger] self.entries()[i]).0 != name@,
    {
        let mut i: usize = 0;
        while i < self.entries.len()
            invariant
                i <= self.entries@.len(),
                forall|j: int| 0 <= j < i ==> (#[trigger] self.entries()[j]).0 != name@,
            decreases self.entries@.len() - i,
        {
            if str_eq(self.entries[i].0, name) {
                return Some(i);
            }
            i = i + 1;
        }
        None
    }

    /// The total of `name`, if it has one.
    pub fn get(&self, name: &str) -> (r: Option<usize>)
        ensures
            r matches Some(n) ==> self@.dom().contains(name@) && self@[name@] == n,
            r is None ==> !self@.dom().contains(name@),
    {
        proof {
            use_type_invariant(self);
            lemma_entries_map_dom(self.entries(), name@);
        }
        match self.find(name) {
            Some(i) => {
                proof {
                    lemma_entries_map_value(self.entries(), i as int);
                }
                Some(self.entries[i].1)
            },
            None => None,
        }
    }

    /// Whether `name` has a total.
    pub fn contains_key(&self, name: &str) -> (r: bool)
        ensures
            r == self@.dom().contains(name@),
    {
        self.get(name).is_some()
    }

    /// Whether no language has a total.
    pub fn is_empty(&self) -> (r: bool)
        ensures
            r == (self@.dom().len() == 0),
    {
        proof {
            lemma_entries_map_finite(self.entries());
            if self.entries().len() > 0 {
                lemma_entries_map_dom(self.entries(), self.entries()[0].0);
            }
        }
        self.entries.len() == 0
    }

    /// Adds `n` lines to the total of `name`, which starts at 0.
    pub fn add(&mut self, name: &'static str, n: usize)
        requires
            total_of(old(self)@, name@) + n <= usize::MAX,
        ensures
            final(self)@ == add_total(old(self)@, name@, n as nat),
    {
        proof {
            use_type_invariant(&*self);
            lemma_entries_map_dom(self.entries(), name@);
        }
        let ghost es = self.entries();
        match self.find(name) {
            Some(i) => {
                proof {
                    lemma_entries_map_value(es, i as int);
                    lemma_entries_map_update(es, i as int, (es[i as int].1 + n) as nat);
                }
                let cur = self.entries[i].1;
                let mut v = Vec::new();
                std::mem::swap(&mut v, &mut self.entries);
                v.set(i, (name, cur + n));
                assert(v@.map_values(|e: (&'static str, usize)| (e.0@, e.1 as nat)) =~= es.update(i as int, (es[i as int].0, (es[i as int].1 + n) as nat)));
                self.entries = v;
            },
            None => {
                let mut v = Vec::new();
                std::mem::swap(&mut v, &mut self.entries);
                v.push((name, n));
                assert(v@.map_values(|e: (&'static str, usize)| (e.0@, e.1 as nat)) =~= es.push((name@, n as nat)));
                assert(es.push((name@, n as nat)).drop_last() =~= es);
                self.entries = v;
            },
        }
    }
}

pub proof fn lemma_entries_map_finite(es: Seq<(Seq<char>, nat)>)
    ensures
        entries_map(es).dom().finite(),
        es.len() == 0 ==> entries_map(es).dom().len() == 0,
    decreases es.len(),
{
    if es.len() > 0 {
        lemma_entries_map_finite(es.drop_last());
    }
}


/// `a` sorts strictly before `b` byte by byte, as `str`'s ordering compares.
pub open spec fn lex_lt(a: Seq<u8>, b: Seq<u8>) -> bool
    decreases a.len(),
{
    if a.len() == 0 {
        b.len() > 0
    } else if b.len() == 0 {
        false
    } else if a[0] != b[0] {
        a[0] < b[0]
    } else {
        lex_lt(a.drop_first(), b.drop_first())
    }
}

/// `a` comes before `b` in byte order: at the first position where they differ, `a`
/// has the smaller byte, or `a` ends there and `b` goes on.
pub open spec fn bytes_before(a: Seq<u8>, b: Seq<u8>) -> bool {
    exists|p: int|
        0 <= p <= a.len() && p <= b.len() && #[trigger] a.take(p) == b.take(p) && (
            (p < a.len() && p < b.len() && a[p] < b[p]) || (p == a.len() && p < b.len()))
}

/// `lex_lt` is byte order.
pub proof fn lemma_lex_lt_bytes_before(a: Seq<u8>, b: Seq<u8>)
    requires
        lex_lt(a, b),
    ensures
        bytes_before(a, b),
    decreases a.len(),
{
    if a.len() == 0 {
        assert(a.take(0) =~= b.take(0));
    } else if a[0] != b[0] {
        assert(a.take(0) =~= b.take(0));
    } else {
        lemma_lex_lt_bytes_before(a.drop_first(), b.drop_first());
        let p = choose|p: int|
            0 <= p <= a.drop_first().len() && p <= b.drop_first().len() && #[trigger] a.drop_first().take(p) == b.drop_first().take(p) && (
                (p < a.drop_first().len() && p < b.drop_first().len() && a.drop_first()[p] < b.drop_first()[p])
                    || (p == a.drop_first().len() && p < b.drop_first().len()));
        assert(a.take(p + 1) =~= seq![a[0]] + a.drop_first().take(p));
        assert(b.take(p + 1) =~= seq![b[0]] + b.drop_first().take(p));
    }
}

/// In the report, row `a` comes before row `b`: more lines first, then by name.
pub open spec fn row_before(a: (Seq<char>, nat), b: (Seq<char>, nat)) -> bool {
    a.1 > b.1 || (a.1 == b.1 && lex_lt(encode_utf8(a.0), encode_utf8(b.0)))
}

/// Rows in report order.
pub open spec fn rows_sorted(rs: Seq<(Seq<char>, nat)>) -> bool {
    forall|i: int, j: int| 0 <= i < j < rs.len() ==> row_before(#[trigger] rs[i], #[trigger] rs[j])
}

pub proof fn lemma_lex_irreflexive(a: Seq<u8>)
    ensures
        !lex_lt(a, a),
    decreases a.len(),
{
    if a.len() > 0 {
        lemma_lex_irreflexive(a.drop_first());
    }
}

pub proof fn lemma_lex_transitive(a: Seq<u8>, b: Seq<u8>, c: Seq<u8>)
    requires
        lex_lt(a, b),
        lex_lt(b, c),
    ensures
        lex_lt(a, c),
    decreases a.len(),
{
    if a.len() > 0 && b.len() > 0 && c.len() > 0 && a[0] == b[0] && b[0] == c[0] {
        lemma_lex_transitive(a.drop_first(), b.drop_first(), c.drop_first());
    }
}

pub proof fn lemma_lex_total(a: Seq<u8>, b: Seq<u8>)
    requires
        a != b,
    ensures
        lex_lt(a, b) || lex_lt(b, a),
    decreases a.len(),
{
    if a.len() > 0 && b.len() > 0 && a[0] == b[0] {
        if a.drop_first() == b.drop_first() {
            assert(a =~= seq![a[0]] + a.drop_first());
            assert(b =~= seq![b[0]] + b.drop_first());
        }
        lemma_lex_total(a.drop_first(), b.drop_first());
    } else if a.len() == 0 && b.len() == 0 {
        assert(a =~= b);
    }
}

pub proof fn lemma_lex_asymmetric(a: Seq<u8>, b: Seq<u8>)
    requires
        lex_lt(a, b),
    ensures
        !lex_lt(b, a),
{
    if lex_lt(b, a) {
        lemma_lex_transitive(a, b, a);
        lemma_lex_irreflexive(a);
    }
}

/// The report order is a strict total order on rows with different names.
pub proof fn lemma_row_order(a: (Seq<char>, nat), b: (Seq<char>, nat), c: (Seq<char>, nat))
    ensures
        !row_before(a, a),
        row_before(a, b) ==> !row_before(b, a),
        row_before(a, b) && row_before(b, c) ==> row_before(a, c),
        a.0 != b.0 ==> row_before(a, b) || row_before(b, a),
{
    lemma_lex_irreflexive(encode_utf8(a.0));
    if row_before(a, b) && a.1 == b.1 {
        lemma_lex_asymmetric(encode_utf8(a.0), encode_utf8(b.0));
    }
    if row_before(a, b) && row_before(b, c) && a.1 == b.1 && b.1 == c.1 {
        lemma_lex_transitive(encode_utf8(a.0), encode_utf8(b.0), encode_utf8(c.0));
    }
    if a.0 != b.0 {
        encode_utf8_decode_utf8(a.0);
        encode_utf8_decode_utf8(b.0);
        lemma_lex_total(encode_utf8(a.0), encode_utf8(b.0));
    }
}

/// Two lists of entries with distinct names and the same entries stand for the same map.
pub proof fn lemma_entries_map_same(es1: Seq<(Seq<char>, nat)>, es2: Seq<(Seq<char>, nat)>)
    requires
        names_distinct(es1),
        names_distinct(es2),
        forall|e: (Seq<char>, nat)| es1.contains(e) <==> es2.contains(e),
    ensures
        entries_map(es1) == entries_map(es2),
{
    assert forall|k: Seq<char>| entries_map(es1).dom().contains(k) <==> entries_map(es2).dom().contains(k) by {
        lemma_entries_map_dom(es1, k);
        lemma_entries_map_dom(es2, k);
        if exists|i: int| 0 <= i < es1.len() && (#[trigger] es1[i]).0 == k {
            let i = choose|i: int| 0 <= i < es1.len() && (#[trigger] es1[i]).0 == k;
            assert(es1.contains(es1[i]));
            let j = choose|j: int| 0 <= j < es2.len() && #[trigger] es2[j] == es1[i];
            assert(es2[j].0 == k);
        }
        if exists|i: int| 0 <= i < es2.len() && (#[trigger] es2[i]).0 == k {
            let i = choose|i: int| 0 <= i < es2.len() && (#[trigger] es2[i]).0 == k;
            assert(es2.contains(es2[i]));
            let j = choose|j: int| 0 <= j < es1.len() && #[trigger] es1[j] == es2[i];
            assert(es1[j].0 == k);
        }
    }
    assert forall|k: Seq<char>| #[trigger] entries_map(es1).dom().contains(k) implies entries_map(es1)[k] == entries_map(es2)[k] by {
        lemma_entries_map_dom(es1, k);
        let i = choose|i: int| 0 <= i < es1.len() && (#[trigger] es1[i]).0 == k;
        assert(es1.contains(es1[i]));
        let j = choose|j: int| 0 <= j < es2.len() && #[trigger] es2[j] == es1[i];
        lemma_entries_map_value(es1, i);
        lemma_entries_map_value(es2, j);
    }
    assert(entries_map(es1) =~= entries_map(es2));
}

/// `a` comes before `b` in the report.
fn row_before_exec(a: (&'static str, usize), b: (&'static str, usize)) -> (r: bool)
    ensures
        r == row_before((a.0@, a.1 as nat), (b.0@, b.1 as nat)),
{
    if a.1 != b.1 {
        return a.1 > b.1;
    }
    let x = a.0.as_bytes();
    let y = b.0.as_bytes();
    let mut i: usize = 0;
    assert(x@.skip(0) =~= x@ && y@.skip(0) =~= y@);
    while i < x.len() && i < y.len() && x[i] == y[i]
        invariant
            i <= x@.len(),
            i <= y@.len(),
            lex_lt(x@, y@) == lex_lt(x@.skip(i as int), y@.skip(i as int)),
        decreases x@.len() - i,
    {
        assert(x@.skip(i as int).drop_first() =~= x@.skip(i + 1));
        assert(y@.skip(i as int).drop_first() =~= y@.skip(i + 1));
        i = i + 1;
    }
    if i == x.len() {
        i < y.len()
    } else if i == y.len() {
        false
    } else {
        x[i] < y[i]
    }
}

impl Totals {
    /// The totals as report rows: more lines first, then by name.
    pub fn rows(&self) -> (r: Vec<(&'static str, usize)>)
        ensures
            names_distinct(r@.map_values(|e: (&'static str, usize)| (e.0@, e.1 as nat))),
            entries_map(r@.map_values(|e: (&'static str, usize)| (e.0@, e.1 as nat))) == self@,
            rows_sorted(r@.map_values(|e: (&'static str, usize)| (e.0@, e.1 as nat))),
            // More lines first.
            forall|i: int, j: int| 0 <= i < j < r@.len() ==> (#[trigger] r@[i]).1 >= (#[trigger] r@[j]).1,
            // Equal counts in byte order of the names.
            forall|i: int, j: int| 0 <= i < j < r@.len() && (#[trigger] r@[i]).1 == (#[trigger] r@[j]).1
                ==> bytes_before(r@[i].0.spec_bytes(), r@[j].0.spec_bytes()),
    {
        proof {
            use_type_invariant(self);
        }
        let ghost es = self.entries();
        let mut r: Vec<(&'static str, usize)> = Vec::new();
        let mut k: usize = 0;
        while k < self.entries.len()
            invariant
                k <= self.entries@.len(),
                es == self.entries(),
                names_distinct(es),
                names_distinct(r@.map_values(|e: (&'static str, usize)| (e.0@, e.1 as nat))),
                rows_sorted(r@.map_values(|e: (&'static str, usize)| (e.0@, e.1 as nat))),
                forall|e: (Seq<char>, nat)|
                    r@.map_values(|e: (&'static str, usize)| (e.0@, e.1 as nat)).contains(e) <==> es.take(k as int).contains(e),
            decreases self.entries@.len() - k,
        {
            let x = self.entries[k];
            let ghost xv = (x.0@, x.1 as nat);
            let ghost rv = r@.map_values(|e: (&'static str, usize)| (e.0@, e.1 as nat));
            assert(es[k as int] == xv);
            let mut p: usize = 0;
            while p < r.len() && !row_before_exec(x, r[p])
                invariant
                    p <= r@.len(),
                    rv == r@.map_values(|e: (&'static str, usize)| (e.0@, e.1 as nat)),
                    xv == (x.0@, x.1 as nat),
                    forall|t: int| 0 <= t < r@.len() ==> #[trigger] rv[t] == (r@[t].0@, r@[t].1 as nat),
                    forall|t: int| 0 <= t < p ==> !row_before(xv, #[trigger] rv[t]),
                decreases r@.len() - p,
            {
                p = p + 1;
            }
            r.insert(p, x);
            proof {
                let nv = r@.map_values(|e: (&'static str, usize)| (e.0@, e.1 as nat));
                assert(nv =~= rv.insert(p as int, xv));
                // The new name is not among the rows yet.
                assert forall|t: int| 0 <= t < rv.len() implies (#[trigger] rv[t]).0 != xv.0 by {
                    assert(rv.contains(rv[t]));
                    assert(es.take(k as int).contains(rv[t]));
                    let j = choose|j: int| 0 <= j < es.take(k as int).len() && #[trigger] es.take(k as int)[j] == rv[t];
                    assert(es.take(k as int)[j] == es[j]);
                    assert(es[j] == rv[t]);
                }
                assert forall|t: int| 0 <= t < p implies row_before(#[trigger] rv[t], xv) by {
                    lemma_row_order(rv[t], xv, xv);
                }
                if p < rv.len() {
                    assert forall|t: int| p <= t < rv.len() implies row_before(xv, #[trigger] rv[t]) by {
                        if t > p {
                            lemma_row_order(xv, rv[p as int], rv[t]);
                        }
                    }
                }
                assert forall|i: int, j: int| 0 <= i < j < nv.len() implies row_before(#[trigger] nv[i], #[trigger] nv[j]) by {
                    if i < p && j > p {
                        lemma_row_order(rv[i], xv, rv[j - 1]);
                    }
                }
                assert forall|i: int, j: int| 0 <= i < j < nv.len() implies (#[trigger] nv[i]).0 != (#[trigger] nv[j]).0 by {}
                assert(es.take(k + 1) =~= es.take(k as int).push(xv));
                assert forall|e: (Seq<char>, nat)| nv.contains(e) <==> es.take(k + 1).contains(e) by {
                    if nv.contains(e) {
                        let j = choose|j: int| 0 <= j < nv.len() && #[trigger] nv[j] == e;
                        if j < p {
                            assert(rv[j] == e && rv.contains(e));
                        } else if j > p {
                            assert(rv[j - 1] == e && rv.contains(e));
                        }
                        if e != xv {
                            assert(es.take(k as int).contains(e));
                            let j2 = choose|j2: int| 0 <= j2 < es.take(k as int).len() && #[trigger] es.take(k as int)[j2] == e;
                            assert(es.take(k + 1)[j2] == e);
                        } else {
                            assert(es.take(k + 1)[k as int] == e);
                        }
                    }
                    if es.take(k + 1).contains(e) {
                        let j = choose|j: int| 0 <= j < es.take(k + 1).len() && #[trigger] es.take(k + 1)[j] == e;
                        if j < k {
                            assert(es.take(k as int)[j] == e);
                            assert(es.take(k as int).contains(e));
                            let t = choose|t: int| 0 <= t < rv.len() && #[trigger] rv[t] == e;
                            if t < p {
                                assert(nv[t] == e);
                            } else {
                                assert(nv[t + 1] == e);
                            }
                        } else {
                            assert(nv[p as int] == e);
                        }
                    }
                }
            }
            k = k + 1;
        }
        proof {
            assert(es.take(k as int) =~= es);
            lemma_entries_map_same(r@.map_values(|e: (&'static str, usize)| (e.0@, e.1 as nat)), es);
            let rv = r@.map_values(|e: (&'static str, usize)| (e.0@, e.1 as nat));
            assert forall|i: int, j: int| 0 <= i < j < r@.len() implies (#[trigger] r@[i]).1 >= (#[trigger] r@[j]).1 by {
                assert(row_before(rv[i], rv[j]));
            }
            assert forall|i: int, j: int| 0 <= i < j < r@.len() && (#[trigger] r@[i]).1 == (#[trigger] r@[j]).1
                implies bytes_before(r@[i].0.spec_bytes(), r@[j].0.spec_bytes()) by {
                assert(row_before(rv[i], rv[j]));
                lemma_lex_lt_bytes_before(encode_utf8(rv[i].0), encode_utf8(rv[j].0));
            }
        }
        r
    }
}
} // verus!
