//! The aggregate: for each normalized function name, how many copies were
//! seen and how many IR lines they hold together.
//!
//! Entries are kept in a vector sorted by the bytes of the name, so that a
//! name is found by binary search and never stored twice.

use vstd::prelude::*;
use vstd::utf8::{encode_utf8, encode_utf8_decode_utf8};
use crate::text::{compare_bytes, lemma_lex_irreflexive, lemma_lex_transitive, lex_lt};

verus! {

/// The copies of one function that were seen, and their IR lines together.
#[derive(Clone, Copy, Debug, PartialEq, Eq, Structural)]
pub struct Instantiations {
    pub copies: usize,
    pub total_lines: usize,
}

impl Default for Instantiations {
    fn default() -> (r: Self)
        ensures
            r.copies == 0,
            r.total_lines == 0,
    {
        Instantiations { copies: 0, total_lines: 0 }
    }
}

impl Instantiations {
    /// Counts one more copy that holds `lines` lines.
    pub fn record_lines(&mut self, lines: usize)
        requires
            old(self).copies < usize::MAX,
            old(self).total_lines + lines <= usize::MAX,
        ensures
            final(self).copies == old(self).copies + 1,
            final(self).total_lines == old(self).total_lines + lines,
    {
        self.copies += 1;
        self.total_lines += lines;
    }
}

/// A record as the pair (copies, total lines).
pub open spec fn tally_of(r: Instantiations) -> (nat, nat) {
    (r.copies as nat, r.total_lines as nat)
}

/// The key by which names are ordered: their UTF-8 bytes.
pub open spec fn name_order_key(name: Seq<char>) -> Seq<u8> {
    encode_utf8(name)
}

/// Names in strictly ascending byte order.
pub open spec fn strictly_ascending(names: Seq<Seq<char>>) -> bool {
    forall|i: int, j: int|
        0 <= i < j < names.len() ==> lex_lt(
            name_order_key(#[trigger] names[i]),
            name_order_key(#[trigger] names[j]),
        )
}

pub open spec fn sum_of(s: Seq<nat>) -> nat
    decreases s.len(),
{
    if s.len() == 0 {
        0
    } else {
        sum_of(s.drop_last()) + s.last()
    }
}

pub open spec fn lines_of(recs: Seq<Instantiations>) -> Seq<nat> {
    recs.map_values(|r: Instantiations| r.total_lines as nat)
}

pub open spec fn copies_of(recs: Seq<Instantiations>) -> Seq<nat> {
    recs.map_values(|r: Instantiations| r.copies as nat)
}

/// The map from name to (copies, total lines) held by parallel sequences.
pub open spec fn table_map(names: Seq<Seq<char>>, recs: Seq<Instantiations>) -> Map<
    Seq<char>,
    (nat, nat),
> {
    Map::new(|k: Seq<char>| names.contains(k), |k: Seq<char>| tally_of(recs[names.index_of(k)]))
}

/// The aggregate after one more copy of `key` with `lines` lines.
pub open spec fn add_observation(m: Map<Seq<char>, (nat, nat)>, key: Seq<char>, lines: nat) -> Map<
    Seq<char>,
    (nat, nat),
> {
    if m.contains_key(key) {
        m.insert(key, (m[key].0 + 1, m[key].1 + lines))
    } else {
        m.insert(key, (1, lines))
    }
}

pub proof fn lemma_sum_concat(a: Seq<nat>, b: Seq<nat>)
    ensures
        sum_of(a + b) == sum_of(a) + sum_of(b),
    decreases b.len(),
{
    if b.len() == 0 {
        assert(a + b =~= a);
    } else {
        assert((a + b).drop_last() =~= a + b.drop_last());
        lemma_sum_concat(a, b.drop_last());
    }
}

pub proof fn lemma_sum_insert(s: Seq<nat>, i: int, x: nat)
    requires
        0 <= i <= s.len(),
    ensures
        sum_of(s.insert(i, x)) == sum_of(s) + x,
{
    let a = s.subrange(0, i);
    let b = s.subrange(i, s.len() as int);
    assert(s =~= a + b);
    assert(s.insert(i, x) =~= a + (seq![x] + b));
    lemma_sum_concat(a, b);
    lemma_sum_concat(a, seq![x] + b);
    lemma_sum_concat(seq![x], b);
    lemma_sum_single(x);
}

proof fn lemma_sum_update(s: Seq<nat>, i: int, x: nat)
    requires
        0 <= i < s.len(),
    ensures
        sum_of(s.update(i, x)) + s[i] == sum_of(s) + x,
{
    let a = s.subrange(0, i);
    let b = s.subrange(i + 1, s.len() as int);
    assert(s =~= a + (seq![s[i]] + b));
    assert(s.update(i, x) =~= a + (seq![x] + b));
    lemma_sum_concat(a, seq![s[i]] + b);
    lemma_sum_concat(a, seq![x] + b);
    lemma_sum_concat(seq![s[i]], b);
    lemma_sum_concat(seq![x], b);
    lemma_sum_single(x);
    lemma_sum_single(s[i]);
}

pub proof fn lemma_sum_single(x: nat)
    ensures
        sum_of(seq![x]) == x,
{
    assert(seq![x].drop_last() =~= Seq::<nat>::empty());
    assert(sum_of(Seq::<nat>::empty()) == 0);
}

/// Each element is at most the sum.
proof fn lemma_element_le_sum(s: Seq<nat>, i: int)
    requires
        0 <= i < s.len(),
    ensures
        s[i] <= sum_of(s),
    decreases s.len(),
{
    if i < s.len() - 1 {
        lemma_element_le_sum(s.drop_last(), i);
    }
}

pub proof fn lemma_ascending_no_duplicates(names: Seq<Seq<char>>)
    requires
        strictly_ascending(names),
    ensures
        names.no_duplicates(),
{
    assert forall|i: int, j: int|
        0 <= i < names.len() && 0 <= j < names.len() && i != j implies names[i] != names[j] by {
        if i < j {
            assert(lex_lt(name_order_key(names[i]), name_order_key(names[j])));
        } else {
            assert(lex_lt(name_order_key(names[j]), name_order_key(names[i])));
        }
        if names[i] == names[j] {
            lemma_lex_irreflexive(name_order_key(names[i]));
        }
    }
}

proof fn lemma_index_of_unique<A>(s: Seq<A>, i: int)
    requires
        s.no_duplicates(),
        0 <= i < s.len(),
    ensures
        s.contains(s[i]),
        s.index_of(s[i]) == i,
{
    assert(s.contains(s[i]));
}

proof fn lemma_table_update(names: Seq<Seq<char>>, recs: Seq<Instantiations>, i: int, r: Instantiations)
    requires
        names.no_duplicates(),
        names.len() == recs.len(),
        0 <= i < names.len(),
    ensures
        table_map(names, recs.update(i, r)) == table_map(names, recs).insert(names[i], tally_of(r)),
{
    lemma_index_of_unique(names, i);
    let lhs = table_map(names, recs.update(i, r));
    let rhs = table_map(names, recs).insert(names[i], tally_of(r));
    assert forall|k: Seq<char>| #[trigger] lhs.contains_key(k) == rhs.contains_key(k) by {}
    assert forall|k: Seq<char>| lhs.contains_key(k) implies #[trigger] lhs[k] == rhs[k] by {
        if k != names[i] {
            let j = names.index_of(k);
            lemma_index_of_unique(names, j);
        }
    }
    assert(lhs =~= rhs);
}

proof fn lemma_table_insert(
    names: Seq<Seq<char>>,
    recs: Seq<Instantiations>,
    p: int,
    key: Seq<char>,
    r: Instantiations,
)
    requires
        names.no_duplicates(),
        names.insert(p, key).no_duplicates(),
        names.len() == recs.len(),
        0 <= p <= names.len(),
        !names.contains(key),
    ensures
        table_map(names.insert(p, key), recs.insert(p, r)) == table_map(names, recs).insert(
            key,
            tally_of(r),
        ),
{
    let n2 = names.insert(p, key);
    let r2 = recs.insert(p, r);
    names.insert_ensures(p, key);
    recs.insert_ensures(p, r);
    lemma_index_of_unique(n2, p);
    let lhs = table_map(n2, r2);
    let rhs = table_map(names, recs).insert(key, tally_of(r));
    assert forall|k: Seq<char>| #[trigger] lhs.contains_key(k) == rhs.contains_key(k) by {
        if n2.contains(k) && k != key {
            let j = choose|j: int| 0 <= j < n2.len() && n2[j] == k;
            if j < p {
                assert(names[j] == k);
            } else {
                assert(names[j - 1] == k);
            }
        }
        if names.contains(k) {
            let j = choose|j: int| 0 <= j < names.len() && names[j] == k;
            if j < p {
                assert(n2[j] == k);
            } else {
                assert(n2[j + 1] == k);
            }
        }
    }
    assert forall|k: Seq<char>| lhs.contains_key(k) implies #[trigger] lhs[k] == rhs[k] by {
        if k != key {
            let j = names.index_of(k);
            assert(names.contains(k));
            lemma_index_of_unique(names, j);
            if j < p {
                lemma_index_of_unique(n2, j);
            } else {
                lemma_index_of_unique(n2, j + 1);
            }
        }
    }
    assert(lhs =~= rhs);
}

/// Two strictly ascending sequences that hold the same names are equal.
proof fn lemma_ascending_unique(a: Seq<Seq<char>>, b: Seq<Seq<char>>)
    requires
        strictly_ascending(a),
        strictly_ascending(b),
        forall|k: Seq<char>| a.contains(k) <==> b.contains(k),
    ensures
        a == b,
{
    lemma_ascending_no_duplicates(a);
    lemma_ascending_no_duplicates(b);
    if a != b {
        let n = if a.len() < b.len() { a.len() } else { b.len() };
        if forall|i: int| 0 <= i < n ==> a[i] == b[i] {
            if a.len() == b.len() {
                assert(a =~= b);
            } else if a.len() < b.len() {
                assert(b.contains(b[n as int]));
                let j = choose|j: int| 0 <= j < a.len() && a[j] == b[n as int];
                assert(b[j] == b[n as int]);
            } else {
                assert(a.contains(a[n as int]));
                let j = choose|j: int| 0 <= j < b.len() && b[j] == a[n as int];
                assert(a[j] == a[n as int]);
            }
        } else {
            let i0 = choose|i: int| 0 <= i < n && a[i] != b[i];
            let i = first_name_difference(a, b, i0);
            let x = a[i];
            let y = b[i];
            assert(a.contains(x));
            let j = choose|j: int| 0 <= j < b.len() && b[j] == x;
            assert(b.contains(y));
            let k = choose|k: int| 0 <= k < a.len() && a[k] == y;
            assert(j > i) by {
                if j < i {
                    assert(a[j] == b[j]);
                }
            }
            assert(k > i) by {
                if k < i {
                    assert(b[k] == a[k]);
                }
            }
            assert(lex_lt(name_order_key(y), name_order_key(x)));
            assert(lex_lt(name_order_key(x), name_order_key(y)));
            lemma_lex_transitive(name_order_key(x), name_order_key(y), name_order_key(x));
            lemma_lex_irreflexive(name_order_key(x));
        }
    }
}

/// The first index at or below `i` where `a` and `b` differ.
proof fn first_name_difference(a: Seq<Seq<char>>, b: Seq<Seq<char>>, i: int) -> (r: int)
    requires
        0 <= i < a.len(),
        i < b.len(),
        a[i] != b[i],
    ensures
        0 <= r <= i,
        a[r] != b[r],
        forall|j: int| 0 <= j < r ==> a[j] == b[j],
    decreases i,
{
    if exists|j: int| 0 <= j < i && a[j] != b[j] {
        let j = choose|j: int| 0 <= j < i && a[j] != b[j];
        first_name_difference(a, b, j)
    } else {
        i
    }
}

/// Two well-formed aggregates with the same contents hold them the same
/// way: the same names in the same order, with the same records.
pub proof fn lemma_same_contents_same_entries(a: &Aggregate, b: &Aggregate)
    requires
        a.wf(),
        b.wf(),
        a@ == b@,
    ensures
        a.names() == b.names(),
        a.records() == b.records(),
{
    assert forall|k: Seq<char>| a.names().contains(k) <==> b.names().contains(k) by {
        assert(a@.contains_key(k) == a.names().contains(k));
        assert(b@.contains_key(k) == b.names().contains(k));
    }
    lemma_ascending_unique(a.names(), b.names());
    lemma_ascending_no_duplicates(a.names());
    assert forall|i: int| 0 <= i < a.records().len() implies a.records()[i] == b.records()[i] by {
        lemma_index_of_unique(a.names(), i);
        let k = a.names()[i];
        assert(a@[k] == tally_of(a.records()[i]));
        assert(b@[k] == tally_of(b.records()[i]));
    }
    assert(a.records() =~= b.records());
}

/// The map from normalized function name to its instantiation record.
pub struct Aggregate {
    names: Vec<String>,
    records: Vec<Instantiations>,
    total_lines: usize,
    total_copies: usize,
}

impl View for Aggregate {
    type V = Map<Seq<char>, (nat, nat)>;

    open spec fn view(&self) -> Map<Seq<char>, (nat, nat)> {
        table_map(self.names(), self.records())
    }
}

impl Aggregate {
    /// The names, in ascending byte order.
    pub closed spec fn names(&self) -> Seq<Seq<char>> {
        self.names@.map_values(|s: String| s@)
    }

    /// The records, in the order of `names`.
    pub closed spec fn records(&self) -> Seq<Instantiations> {
        self.records@
    }

    pub closed spec fn fields_agree(&self) -> bool {
        &&& self.names@.len() == self.records@.len()
        &&& self.total_lines == sum_of(lines_of(self.records@))
        &&& self.total_copies == sum_of(copies_of(self.records@))
    }

    /// Well-formed: one record per name, names unique and sorted, every
    /// record counts at least one copy, and the totals fit in a `usize`.
    pub open spec fn wf(&self) -> bool {
        &&& self.fields_agree()
        &&& self.names().len() == self.records().len()
        &&& strictly_ascending(self.names())
        &&& forall|i: int| 0 <= i < self.records().len() ==> #[trigger] self.records()[i].copies >= 1
        &&& self.spec_total_lines() <= usize::MAX
        &&& self.spec_total_copies() <= usize::MAX
    }

    /// Total of the line counts over all records.
    pub open spec fn spec_total_lines(&self) -> nat {
        sum_of(lines_of(self.records()))
    }

    /// Total of the copy counts over all records.
    pub open spec fn spec_total_copies(&self) -> nat {
        sum_of(copies_of(self.records()))
    }

    /// An empty aggregate.
    pub fn new() -> (r: Self)
        ensures
            r.wf(),
            r@ == Map::<Seq<char>, (nat, nat)>::empty(),
            r.names().len() == 0,
            r.spec_total_lines() == 0,
            r.spec_total_copies() == 0,
    {
        let r = Aggregate { names: Vec::new(), records: Vec::new(), total_lines: 0, total_copies: 0 };
        assert(r.names() =~= Seq::<Seq<char>>::empty());
        assert(lines_of(r.records@) =~= Seq::<nat>::empty());
        assert(copies_of(r.records@) =~= Seq::<nat>::empty());
        assert(r@ =~= Map::<Seq<char>, (nat, nat)>::empty());
        r
    }

    /// Number of distinct names.
    pub fn len(&self) -> (r: usize)
        requires
            self.wf(),
        ensures
            r == self.names().len(),
    {
        self.names.len()
    }

    /// The `i`-th name in ascending order.
    pub fn name(&self, i: usize) -> (r: &String)
        requires
            self.wf(),
            i < self.names().len(),
        ensures
            r@ == self.names()[i as int],
    {
        &self.names[i]
    }

    /// The record of the `i`-th name in ascending order.
    pub fn record(&self, i: usize) -> (r: Instantiations)
        requires
            self.wf(),
            i < self.names().len(),
        ensures
            r == self.records()[i as int],
    {
        self.records[i]
    }

    /// Sum of `total_lines` over all records.
    pub fn total_lines(&self) -> (r: usize)
        requires
            self.wf(),
        ensures
            r == self.spec_total_lines(),
    {
        self.total_lines
    }

    /// Sum of `copies` over all records.
    pub fn total_copies(&self) -> (r: usize)
        requires
            self.wf(),
        ensures
            r == self.spec_total_copies(),
    {
        self.total_copies
    }

    /// The record of `name`, if it has one.
    pub fn get(&self, name: &str) -> (r: Option<Instantiations>)
        requires
            self.wf(),
        ensures
            r is Some <==> self@.contains_key(name@),
            r matches Some(rec) ==> tally_of(rec) == self@[name@],
    {
        proof {
            lemma_ascending_no_duplicates(self.names());
        }
        match self.find(name) {
            Ok(i) => {
                proof {
                    lemma_index_of_unique(self.names(), i as int);
                }
                Some(self.records[i])
            },
            Err(p) => {
                assert(!self.names().contains(name@)) by {
                    if self.names().contains(name@) {
                        let j = choose|j: int| 0 <= j < self.names().len() && self.names()[j] == name@;
                        lemma_lex_irreflexive(name_order_key(name@));
                    }
                }
                None
            },
        }
    }

    /// Where `key` stands among the names: `Ok(i)` when it is the `i`-th,
    /// else `Err(p)`, the place where it would be inserted.
    fn find(&self, key: &str) -> (r: Result<usize, usize>)
        requires
            self.wf(),
        ensures
            match r {
                Ok(i) => i < self.names().len() && self.names()[i as int] == key@,
                Err(p) => {
                    &&& p <= self.names().len()
                    &&& forall|j: int| 0 <= j < p ==> lex_lt(name_order_key(#[trigger] self.names()[j]), name_order_key(key@))
                    &&& forall|j: int| p <= j < self.names().len() ==> lex_lt(name_order_key(key@), name_order_key(#[trigger] self.names()[j]))
                },
            },
    {
        let kb = key.as_bytes();
        let mut lo: usize = 0;
        let mut hi: usize = self.names.len();
        while lo < hi
            invariant
                self.wf(),
                kb@ == name_order_key(key@),
                lo <= hi <= self.names().len(),
                forall|j: int| 0 <= j < lo ==> lex_lt(name_order_key(#[trigger] self.names()[j]), kb@),
                forall|j: int| hi <= j < self.names().len() ==> lex_lt(kb@, name_order_key(#[trigger] self.names()[j])),
            decreases hi - lo,
        {
            let mid = lo + (hi - lo) / 2;
            let mb = self.names[mid].as_str().as_bytes();
            assert(self.names()[mid as int] == self.names@[mid as int]@);
            match compare_bytes(mb, kb) {
                core::cmp::Ordering::Equal => {
                    proof {
                        encode_utf8_decode_utf8(self.names()[mid as int]);
                        encode_utf8_decode_utf8(key@);
                    }
                    return Ok(mid);
                },
                core::cmp::Ordering::Less => {
                    assert forall|j: int| 0 <= j < mid + 1 implies lex_lt(name_order_key(#[trigger] self.names()[j]), kb@) by {
                        if j < mid {
                            lemma_lex_transitive(name_order_key(self.names()[j]), mb@, kb@);
                        }
                    }
                    lo = mid + 1;
                },
                core::cmp::Ordering::Greater => {
                    assert forall|j: int| mid <= j < self.names().len() implies lex_lt(kb@, name_order_key(#[trigger] self.names()[j])) by {
                        if j > mid {
                            lemma_lex_transitive(kb@, mb@, name_order_key(self.names()[j]));
                        }
                    }
                    hi = mid;
                },
            }
        }
        Err(lo)
    }

    /// Counts one more copy of `key` holding `lines` lines.
    pub fn add(&mut self, key: String, lines: usize)
        requires
            old(self).wf(),
            old(self).spec_total_lines() + lines <= usize::MAX,
            old(self).spec_total_copies() + 1 <= usize::MAX,
        ensures
            final(self).wf(),
            final(self)@ == add_observation(old(self)@, key@, lines as nat),
            final(self).spec_total_lines() == old(self).spec_total_lines() + lines,
            final(self).spec_total_copies() == old(self).spec_total_copies() + 1,
    {
        proof {
            lemma_ascending_no_duplicates(self.names());
        }
        match self.find(key.as_str()) {
            Ok(i) => {
                let mut rec = self.records[i];
                proof {
                    lemma_element_le_sum(lines_of(self.records@), i as int);
                    lemma_element_le_sum(copies_of(self.records@), i as int);
                    lemma_index_of_unique(self.names(), i as int);
                    lemma_table_update(self.names(), self.records(), i as int, Instantiations {
                        copies: (rec.copies + 1) as usize,
                        total_lines: (rec.total_lines + lines) as usize,
                    });
                    lemma_sum_update(lines_of(self.records@), i as int, (rec.total_lines + lines) as nat);
                    lemma_sum_update(copies_of(self.records@), i as int, (rec.copies + 1) as nat);
                }
                rec.record_lines(lines);
                let ghost old_records = self.records@;
                self.records.set(i, rec);
                assert(lines_of(self.records@) =~= lines_of(old_records).update(i as int, rec.total_lines as nat));
                assert(copies_of(self.records@) =~= copies_of(old_records).update(i as int, rec.copies as nat));
                self.total_lines = self.total_lines + lines;
                self.total_copies = self.total_copies + 1;
            },
            Err(p) => {
                let rec = Instantiations { copies: 1, total_lines: lines };
                let ghost old_names = self.names();
                let ghost old_records = self.records@;
                proof {
                    assert(!old_names.contains(key@)) by {
                        if old_names.contains(key@) {
                            let j = choose|j: int| 0 <= j < old_names.len() && old_names[j] == key@;
                            lemma_lex_irreflexive(name_order_key(key@));
                        }
                    }
                }
                self.names.insert(p, key);
                self.records.insert(p, rec);
                assert(self.names() =~= old_names.insert(p as int, key@));
                proof {
                    old_names.insert_ensures(p as int, key@);
                    assert forall|i: int, j: int| 0 <= i < j < self.names().len() implies lex_lt(
                        name_order_key(#[trigger] self.names()[i]),
                        name_order_key(#[trigger] self.names()[j]),
                    ) by {
                        if i < p && j == p {
                        } else if i < p && j > p {
                            assert(self.names()[j] == old_names[j - 1]);
                        } else if i == p {
                            assert(self.names()[j] == old_names[j - 1]);
                        } else if i > p {
                            assert(self.names()[i] == old_names[i - 1]);
                            assert(self.names()[j] == old_names[j - 1]);
                        }
                    }
                    lemma_ascending_no_duplicates(self.names());
                    lemma_table_insert(old_names, old_records, p as int, key@, rec);
                    lemma_sum_insert(lines_of(old_records), p as int, lines as nat);
                    lemma_sum_insert(copies_of(old_records), p as int, 1);
                }
                assert(lines_of(self.records@) =~= lines_of(old_records).insert(p as int, lines as nat));
                assert(copies_of(self.records@) =~= copies_of(old_records).insert(p as int, 1));
                self.total_lines = self.total_lines + lines;
                self.total_copies = self.total_copies + 1;
            },
        }
    }
}

} // verus!
