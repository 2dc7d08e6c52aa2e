//! Bidirectional dictionary between string entries and integer indices,
//! used to translate a user vocabulary to a language model's word indices.
//!
//! The mapping is kept as a list of (entry, index) pairs in which both the
//! entries and the indices are unique; lookups scan the list.

use vstd::prelude::*;

verus! {

/// Failures of the dictionary: a duplicate entry on insertion, a lookup of
/// an unknown index or entry, and a failure of the loader that reads a
/// dictionary from a file.
#[derive(Debug, Clone, PartialEq)]
pub enum DictError {
    /// The entry is already present.
    DuplicateEntry(String),
    /// No entry carries this index.
    MissingIndex(i32),
    /// No index is mapped for this entry.
    MissingEntry(String),
    /// The dictionary could not be read; carries the reader's message.
    Load(String),
}

/// Names the result of `str::trim`: the entry with leading and trailing
/// whitespace removed, a function of the characters alone.
pub uninterp spec fn trimmed_of(s: Seq<char>) -> Seq<char>;

/// Relies on `str::trim`: removes leading and trailing whitespace; the
/// result depends on the characters alone.
#[verifier::external_body]
fn trim_str(s: &String) -> (r: String)
    ensures
        r@ == trimmed_of(s@),
{
    s.trim().to_owned()
}

/// Pigeonhole: a sequence of pairwise distinct values that covers every
/// integer of `[a, b)` has at least `b - a` elements.
proof fn lemma_distinct_cover(vals: Seq<int>, a: int, b: int)
    requires
        a <= b,
        forall|i: int, j: int| 0 <= i < j < vals.len() ==> vals[i] != vals[j],
        forall|v: int| a <= v < b ==> vals.contains(v),
    ensures
        b - a <= vals.len(),
    decreases b - a,
{
    if a < b {
        assert(vals.contains(a));
        let p = choose|p: int| 0 <= p < vals.len() && vals[p] == a;
        let rest = vals.remove(p);
        assert forall|i: int, j: int| 0 <= i < j < rest.len() implies rest[i] != rest[j] by {
            let i0 = if i < p {
                i
            } else {
                i + 1
            };
            let j0 = if j < p {
                j
            } else {
                j + 1
            };
            assert(rest[i] == vals[i0] && rest[j] == vals[j0]);
        }
        assert forall|v: int| a + 1 <= v < b implies rest.contains(v) by {
            assert(vals.contains(v));
            let q = choose|q: int| 0 <= q < vals.len() && vals[q] == v;
            if q < p {
                assert(rest[q] == vals[q]);
            } else {
                assert(rest[q - 1] == vals[q]);
            }
        }
        lemma_distinct_cover(rest, a + 1, b);
    }
}

/// A bidirectional mapping between string entries and `i32` indices.
#[derive(Debug, Clone, PartialEq)]
pub struct Dict {
    pairs: Vec<(String, i32)>,
}

impl Dict {
    /// Number of entries.
    pub closed spec fn len_spec(&self) -> int {
        self.pairs@.len() as int
    }

    /// The entry of the pair at list position `j`.
    pub closed spec fn entry_at(&self, j: int) -> Seq<char> {
        self.pairs@[j].0@
    }

    /// The index of the pair at list position `j`.
    pub closed spec fn idx_at(&self, j: int) -> int {
        self.pairs@[j].1 as int
    }

    /// Whether some pair maps the entry `s`.
    pub open spec fn has_entry(&self, s: Seq<char>) -> bool {
        exists|j: int| 0 <= j < self.len_spec() && self.entry_at(j) == s
    }

    /// Whether some pair carries the index `i`.
    pub open spec fn has_idx(&self, i: int) -> bool {
        exists|j: int| 0 <= j < self.len_spec() && self.idx_at(j) == i
    }

    /// Well-formedness: entries are unique, indices are unique, and indices
    /// stay below `i32::MAX` so that a fresh one can always be found.
    pub open spec fn wf(&self) -> bool {
        &&& forall|j1: int, j2: int|
            0 <= j1 < j2 < self.len_spec() ==> self.entry_at(j1) != self.entry_at(j2)
        &&& forall|j1: int, j2: int|
            0 <= j1 < j2 < self.len_spec() ==> self.idx_at(j1) != self.idx_at(j2)
        &&& forall|j: int|
            0 <= j < self.len_spec() ==> 0 <= #[trigger] self.idx_at(j) < i32::MAX as int
        &&& self.len_spec() < i32::MAX as int
    }

    /// An empty dictionary.
    pub fn new() -> (r: Dict)
        ensures
            r.wf(),
            r.len_spec() == 0,
    {
        Dict { pairs: Vec::new() }
    }

    /// Number of entries.
    pub fn len(&self) -> (r: usize)
        ensures
            r as int == self.len_spec(),
    {
        self.pairs.len()
    }

    /// Whether the dictionary holds no entry.
    pub fn is_empty(&self) -> (r: bool)
        ensures
            r == (self.len_spec() == 0),
    {
        self.len() == 0
    }

    /// Whether some pair carries the index `idx`.
    fn contains_idx(&self, idx: i32) -> (r: bool)
        ensures
            r == self.has_idx(idx as int),
    {
        let n = self.pairs.len();
        let mut j: usize = 0;
        while j < n
            invariant
                j <= n,
                n == self.pairs@.len(),
                forall|m: int| 0 <= m < j as int ==> self.idx_at(m) != idx as int,
            decreases n - j,
        {
            if self.pairs[j].1 == idx {
                proof {
                    assert(self.idx_at(j as int) == idx as int);
                }
                return true;
            }
            j = j + 1;
        }
        false
    }

    /// Whether some pair maps the entry.
    fn contains_entry(&self, entry: &String) -> (r: bool)
        ensures
            r == self.has_entry(entry@),
    {
        let n = self.pairs.len();
        let mut j: usize = 0;
        while j < n
            invariant
                j <= n,
                n == self.pairs@.len(),
                forall|m: int| 0 <= m < j as int ==> self.entry_at(m) != entry@,
            decreases n - j,
        {
            if self.pairs[j].0 == *entry {
                proof {
                    assert(self.entry_at(j as int) == entry@);
                }
                return true;
            }
            j = j + 1;
        }
        false
    }

    /// Inserts `entry` under the index `idx`, which must be fresh; fails
    /// exactly when the entry is already present, leaving the dictionary
    /// unchanged.
    pub fn add_entry_at(&mut self, entry: String, idx: i32) -> (r: Result<(), DictError>)
        requires
            old(self).wf(),
            old(self).len_spec() + 1 < i32::MAX as int,
            !old(self).has_idx(idx as int),
            0 <= idx,
            (idx as int) < i32::MAX as int,
        ensures
            final(self).wf(),
            r is Ok <==> !old(self).has_entry(entry@),
            r is Ok ==> final(self).len_spec() == old(self).len_spec() + 1
                && final(self).entry_at(old(self).len_spec()) == entry@
                && final(self).idx_at(old(self).len_spec()) == idx as int
                && forall|j: int|
                    0 <= j < old(self).len_spec() ==> final(self).entry_at(j) == old(
                        self,
                    ).entry_at(j) && final(self).idx_at(j) == old(self).idx_at(j),
            r is Err ==> *final(self) == *old(self)
                && (r->Err_0 matches DictError::DuplicateEntry(e) && e@ == entry@),
    {
        if self.contains_entry(&entry) {
            return Err(DictError::DuplicateEntry(entry));
        }
        let ghost pre = *self;
        self.pairs.push((entry, idx));
        proof {
            assert(self.len_spec() == pre.len_spec() + 1);
            assert forall|j: int|
                0 <= j < pre.len_spec() implies self.entry_at(j) == pre.entry_at(j)
                && self.idx_at(j) == pre.idx_at(j) by {
                assert(self.pairs@[j] == pre.pairs@[j]);
            }
            assert(self.entry_at(self.len_spec() - 1) == entry@);
            assert(self.idx_at(self.len_spec() - 1) == idx as int);
            assert forall|j1: int, j2: int|
                0 <= j1 < j2 < self.len_spec() implies self.entry_at(j1) != self.entry_at(j2) by {
                assert(self.entry_at(j1) == pre.entry_at(j1));
                if j2 == self.len_spec() - 1 {
                    if pre.entry_at(j1) == entry@ {
                        assert(0 <= j1 < pre.len_spec() && pre.entry_at(j1) == entry@);
                        assert(pre.has_entry(entry@));
                        assert(false);
                    }
                } else {
                    assert(self.entry_at(j2) == pre.entry_at(j2));
                }
            }
            assert forall|j1: int, j2: int|
                0 <= j1 < j2 < self.len_spec() implies self.idx_at(j1) != self.idx_at(j2) by {
                assert(self.idx_at(j1) == pre.idx_at(j1));
                if j2 == self.len_spec() - 1 {
                    if pre.idx_at(j1) == idx as int {
                        assert(0 <= j1 < pre.len_spec() && pre.idx_at(j1) == idx as int);
                        assert(pre.has_idx(idx as int));
                        assert(false);
                    }
                } else {
                    assert(self.idx_at(j2) == pre.idx_at(j2));
                }
            }
            assert forall|j: int|
                0 <= j < self.len_spec() implies 0 <= #[trigger] self.idx_at(j) < i32::MAX
                as int by {
                if j < pre.len_spec() {
                    assert(self.idx_at(j) == pre.idx_at(j));
                } else {
                    assert(self.idx_at(j) == idx as int);
                }
            }
            assert(self.len_spec() < i32::MAX as int);
        }
        Ok(())
    }

    /// Inserts `entry` under the smallest unused index at or above the
    /// current length; fails exactly when the entry is already present.
    pub fn add_entry(&mut self, entry: String) -> (r: Result<i32, DictError>)
        requires
            old(self).wf(),
            old(self).len_spec() < 0x4000_0000,
        ensures
            final(self).wf(),
            r is Ok <==> !old(self).has_entry(entry@),
            r is Ok ==> old(self).len_spec() <= r->Ok_0 as int
                && !old(self).has_idx(r->Ok_0 as int)
                && (forall|i0: int|
                    old(self).len_spec() <= i0 < r->Ok_0 as int ==> old(self).has_idx(i0))
                && final(self).len_spec() == old(self).len_spec() + 1
                && final(self).entry_at(old(self).len_spec()) == entry@
                && final(self).idx_at(old(self).len_spec()) == r->Ok_0 as int
                && forall|j: int|
                    0 <= j < old(self).len_spec() ==> final(self).entry_at(j) == old(
                        self,
                    ).entry_at(j) && final(self).idx_at(j) == old(self).idx_at(j),
            r is Err ==> *final(self) == *old(self)
                && (r->Err_0 matches DictError::DuplicateEntry(e) && e@ == entry@),
    {
        let mut idx: i32 = self.pairs.len() as i32;
        while self.contains_idx(idx)
            invariant
                self.wf(),
                self.len_spec() < 0x4000_0000,
                self.len_spec() <= idx as int,
                idx as int <= self.len_spec() + self.len_spec(),
                forall|i0: int| self.len_spec() <= i0 < idx as int ==> self.has_idx(i0),
            decreases i32::MAX as int - idx as int,
        {
            proof {
                let ghost vals = Seq::new(self.len_spec() as nat, |j: int| self.idx_at(j));
                assert forall|v: int| self.len_spec() <= v < idx as int + 1 implies vals.contains(
                    v,
                ) by {
                    assert(self.has_idx(v));
                    let j = choose|j: int| 0 <= j < self.len_spec() && self.idx_at(j) == v;
                    assert(vals[j] == v);
                }
                lemma_distinct_cover(vals, self.len_spec(), idx as int + 1);
            }
            idx = idx + 1;
        }
        proof {
            assert((idx as int) < i32::MAX as int);
        }
        let r = self.add_entry_at(entry, idx);
        match r {
            Ok(()) => Ok(idx),
            Err(e) => Err(e),
        }
    }

    /// The entry carrying the index `idx`; fails exactly when no entry does.
    pub fn entry(&self, idx: i32) -> (r: Result<&String, DictError>)
        ensures
            r is Ok <==> self.has_idx(idx as int),
            r matches Ok(e) ==> exists|j: int|
                0 <= j < self.len_spec() && self.idx_at(j) == idx as int && e@ == self.entry_at(j),
            r is Err ==> (r->Err_0 matches DictError::MissingIndex(m) && m == idx),
    {
        let n = self.pairs.len();
        let mut j: usize = 0;
        while j < n
            invariant
                j <= n,
                n == self.pairs@.len(),
                forall|m: int| 0 <= m < j as int ==> self.idx_at(m) != idx as int,
            decreases n - j,
        {
            if self.pairs[j].1 == idx {
                proof {
                    assert(self.idx_at(j as int) == idx as int);
                }
                return Ok(&self.pairs[j].0);
            }
            j = j + 1;
        }
        Err(DictError::MissingIndex(idx))
    }

    /// The index mapped for `entry`; fails exactly when the entry is absent.
    pub fn index(&self, entry: &str) -> (r: Result<i32, DictError>)
        ensures
            r is Ok <==> self.has_entry(entry@),
            r matches Ok(i) ==> exists|j: int|
                0 <= j < self.len_spec() && self.entry_at(j) == entry@ && i as int == self.idx_at(
                    j,
                ),
            r is Err ==> (r->Err_0 matches DictError::MissingEntry(e) && e@ == entry@),
    {
        let key: String = entry.to_owned();
        let n = self.pairs.len();
        let mut j: usize = 0;
        while j < n
            invariant
                j <= n,
                n == self.pairs@.len(),
                key@ == entry@,
                forall|m: int| 0 <= m < j as int ==> self.entry_at(m) != entry@,
            decreases n - j,
        {
            if self.pairs[j].0 == key {
                proof {
                    assert(self.entry_at(j as int) == entry@);
                }
                return Ok(self.pairs[j].1);
            }
            j = j + 1;
        }
        Err(DictError::MissingEntry(key))
    }

    /// The dictionary is a bijection between its entries and its indices:
    /// two pairs of a well-formed dictionary that share an entry or share an
    /// index are the same pair, so each lookup determines the other.
    pub proof fn lemma_pairs_bijective(&self, j1: int, j2: int)
        requires
            self.wf(),
            0 <= j1 < self.len_spec(),
            0 <= j2 < self.len_spec(),
            self.entry_at(j1) == self.entry_at(j2) || self.idx_at(j1) == self.idx_at(j2),
        ensures
            j1 == j2,
    {
    }

    /// The (entry, index) pairs, in insertion order.
    pub fn iter(&self) -> (r: &Vec<(String, i32)>)
        ensures
            r@.len() == self.len_spec(),
            forall|j: int|
                0 <= j < self.len_spec() ==> ((#[trigger] r@[j]).0@ == self.entry_at(j) && r@[j].1
                    as int == self.idx_at(j)),
    {
        &self.pairs
    }

    /// Builds a dictionary from the lines of a dictionary file: entry `k` is
    /// line `k` with surrounding whitespace trimmed. Fails exactly when two
    /// trimmed lines coincide.
    pub fn parse(lines: &Vec<String>) -> (r: Result<Dict, DictError>)
        requires
            lines@.len() < 0x4000_0000,
        ensures
            r is Ok <==> (forall|j1: int, j2: int|
                0 <= j1 < j2 < lines@.len() ==> trimmed_of(#[trigger] lines@[j1]@) != trimmed_of(
                    #[trigger] lines@[j2]@,
                )),
            r matches Ok(d) ==> d.wf() && d.len_spec() == lines@.len(),
            r matches Ok(d) ==> forall|j: int|
                0 <= j < lines@.len() ==> d.entry_at(j) == trimmed_of(#[trigger] lines@[j]@),
            r matches Ok(d) ==> forall|j: int| 0 <= j < lines@.len() ==> #[trigger] d.idx_at(j) == j,
            r is Err ==> (r->Err_0 matches DictError::DuplicateEntry(e) && exists|j1: int, j2: int|
                0 <= j1 < j2 < lines@.len() && trimmed_of(#[trigger] lines@[j1]@) == trimmed_of(
                    #[trigger] lines@[j2]@,
                ) && e@ == trimmed_of(lines@[j2]@)),
    {
        let mut dict = Dict::new();
        let n = lines.len();
        let mut i: usize = 0;
        while i < n
            invariant
                i <= n,
                n == lines@.len(),
                n < 0x4000_0000,
                dict.wf(),
                dict.len_spec() == i as int,
                forall|j: int|
                    0 <= j < i as int ==> dict.entry_at(j) == trimmed_of(#[trigger] lines@[j]@)
                        && dict.idx_at(j) == j,
                forall|j1: int, j2: int|
                    0 <= j1 < j2 < i as int ==> trimmed_of(#[trigger] lines@[j1]@) != trimmed_of(
                        #[trigger] lines@[j2]@,
                    ),
            decreases n - i,
        {
            let line = trim_str(&lines[i]);
            let ghost pre = dict;
            match dict.add_entry(line) {
                Ok(idx) => {
                    proof {
                        assert forall|j: int|
                            0 <= j < pre.len_spec() implies pre.idx_at(j) != i as int by {
                            assert(pre.entry_at(j) == trimmed_of(lines@[j]@));
                            assert(pre.idx_at(j) == j);
                        }
                        assert(!pre.has_idx(i as int));
                        if (idx as int) > i as int {
                            assert(pre.has_idx(i as int));
                        }
                        assert(idx as int == i as int);
                    }
                },
                Err(e) => {
                    proof {
                        let j1 = choose|j1: int|
                            0 <= j1 < pre.len_spec() && pre.entry_at(j1) == trimmed_of(
                                lines@[i as int]@,
                            );
                        assert(trimmed_of(lines@[j1]@) == trimmed_of(lines@[i as int]@));
                    }
                    return Err(e);
                },
            }
            i = i + 1;
        }
        proof {
            assert forall|j: int|
                0 <= j < lines@.len() implies dict.entry_at(j) == trimmed_of(
                #[trigger] lines@[j]@,
            ) by {}
            assert forall|j: int| 0 <= j < lines@.len() implies #[trigger] dict.idx_at(j) == j by {
                assert(dict.entry_at(j) == trimmed_of(lines@[j]@));
            }
        }
        Ok(dict)
    }
}

} // verus!
