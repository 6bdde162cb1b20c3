//! Records: insertion-ordered mappings from uppercase field names to values.
//! A duplicate name overwrites the value in place and keeps the original
//! position, so iteration order is the order of first insertion.

use vstd::prelude::*;
use vstd::string::*;
use crate::text::{lemma_upper_seq_idempotent, upper_seq, upper_str, str_eq};

verus! {

/// Names at distinct positions differ.
pub open spec fn rec_names_unique(m: Seq<(Seq<char>, Seq<char>)>) -> bool {
    forall|i: int, j: int| 0 <= i < j < m.len() ==> (#[trigger] m[i]).0 != (#[trigger] m[j]).0
}

/// Every name is its own uppercase folding.
pub open spec fn rec_names_upper(m: Seq<(Seq<char>, Seq<char>)>) -> bool {
    forall|i: int| 0 <= i < m.len() ==> upper_seq((#[trigger] m[i]).0) == m[i].0
}

pub open spec fn rec_wf(m: Seq<(Seq<char>, Seq<char>)>) -> bool {
    rec_names_unique(m) && rec_names_upper(m)
}

/// The value stored under `n`: the first (and, in a well-formed record, only)
/// pair whose name is exactly `n`.
pub open spec fn spec_get(m: Seq<(Seq<char>, Seq<char>)>, n: Seq<char>) -> Option<Seq<char>>
    decreases m.len(),
{
    if m.len() == 0 {
        None
    } else if m[0].0 == n {
        Some(m[0].1)
    } else {
        spec_get(m.drop_first(), n)
    }
}

/// Insertion with last-write-wins at the original position: an existing name
/// keeps its place and takes the new value, a new name goes to the end.
pub open spec fn spec_insert(
    m: Seq<(Seq<char>, Seq<char>)>,
    n: Seq<char>,
    v: Seq<char>,
) -> Seq<(Seq<char>, Seq<char>)>
    decreases m.len(),
{
    if m.len() == 0 {
        seq![(n, v)]
    } else if m[0].0 == n {
        seq![(n, v)] + m.drop_first()
    } else {
        seq![m[0]] + spec_insert(m.drop_first(), n, v)
    }
}

/// The record a sequence of raw fields assembles into, inserting from the
/// front.
pub open spec fn record_of(fs: Seq<(Seq<char>, Seq<char>)>) -> Seq<(Seq<char>, Seq<char>)>
    decreases fs.len(),
{
    if fs.len() == 0 {
        Seq::empty()
    } else {
        spec_insert(record_of(fs.drop_last()), fs.last().0, fs.last().1)
    }
}

/// When the name is absent, insertion appends.
pub proof fn lemma_spec_insert_absent(
    m: Seq<(Seq<char>, Seq<char>)>,
    n: Seq<char>,
    v: Seq<char>,
)
    requires
        forall|i: int| 0 <= i < m.len() ==> (#[trigger] m[i]).0 != n,
    ensures
        spec_insert(m, n, v) =~= m.push((n, v)),
    decreases m.len(),
{
    if m.len() > 0 {
        assert(forall|i: int| 0 <= i < m.drop_first().len()
            ==> (#[trigger] m.drop_first()[i]).0 != n);
        lemma_spec_insert_absent(m.drop_first(), n, v);
        assert(spec_insert(m, n, v) =~= m.push((n, v)));
    }
}

/// An insertion-ordered record.
pub struct Record {
    fields: Vec<(String, String)>,
}

impl View for Record {
    type V = Seq<(Seq<char>, Seq<char>)>;

    closed spec fn view(&self) -> Seq<(Seq<char>, Seq<char>)> {
        Seq::new(self.fields@.len(), |i: int| (self.fields@[i].0@, self.fields@[i].1@))
    }
}

impl DeepView for Record {
    type V = Seq<(Seq<char>, Seq<char>)>;

    open spec fn deep_view(&self) -> Seq<(Seq<char>, Seq<char>)> {
        self.view()
    }
}

impl Record {
    pub open spec fn wf(&self) -> bool {
        rec_wf(self@)
    }

    /// The empty record.
    pub fn new() -> (r: Record)
        ensures
            r@ =~= Seq::<(Seq<char>, Seq<char>)>::empty(),
            r.wf(),
    {
        Record { fields: Vec::new() }
    }

    pub fn len(&self) -> (r: usize)
        ensures
            r == self@.len(),
    {
        self.fields.len()
    }

    pub fn is_empty(&self) -> (r: bool)
        ensures
            r == (self@.len() == 0),
    {
        self.fields.len() == 0
    }

    /// The field at position `i`, as it was inserted.
    pub fn field_at(&self, i: usize) -> (r: (String, String))
        requires
            i < self@.len(),
        ensures
            (r.0@, r.1@) == self@[i as int],
    {
        let p = &self.fields[i];
        (p.0.clone(), p.1.clone())
    }

    /// The position of the field named exactly `n`, if one exists.
    #[verifier::loop_isolation(false)]
    fn find_idx(&self, n: &str) -> (r: Option<usize>)
        ensures
            match r {
                Some(i) => i < self@.len() && self@[i as int].0 == n@
                    && forall|k: int| 0 <= k < i ==> (#[trigger] self@[k]).0 != n@,
                None => forall|k: int| 0 <= k < self@.len() ==> (#[trigger] self@[k]).0 != n@,
            },
    {
        let mut i: usize = 0;
        while i < self.fields.len()
            invariant
                i <= self@.len(),
                forall|k: int| 0 <= k < i ==> (#[trigger] self@[k]).0 != n@,
            decreases self@.len() - i,
        {
            if str_eq(self.fields[i].0.as_str(), n) {
                return Some(i);
            }
            i += 1;
        }
        None
    }

    /// The value stored under the exact name `n`.
    pub fn get(&self, n: &str) -> (r: Option<String>)
        ensures
            match r {
                Some(v) => spec_get(self@, n@) == Some(v@),
                None => spec_get(self@, n@) is None,
            },
    {
        match self.find_idx(n) {
            Some(i) => {
                proof {
                    lemma_spec_get_at(self@, n@, i as int);
                }
                Some(self.fields[i].1.clone())
            },
            None => {
                proof {
                    lemma_spec_get_absent(self@, n@);
                }
                None
            },
        }
    }

    /// Stores `v` under the uppercase folding of `n`: an existing field keeps
    /// its position and takes the new value, a new field goes to the end.
    pub fn insert(&mut self, n: &str, v: &str)
        ensures
            final(self)@ == spec_insert(old(self)@, upper_seq(n@), v@),
            old(self).wf() ==> final(self).wf(),
    {
        let un = upper_str(n);
        match self.find_idx(un.as_str()) {
            Some(i) => {
                proof {
                    lemma_spec_insert_at(old(self)@, upper_seq(n@), v@, i as int);
                }
                self.fields.set(i, (un, v.to_owned()));
                proof {
                    assert(self@ =~= spec_insert(old(self)@, upper_seq(n@), v@));
                    if old(self).wf() {
                        lemma_upper_seq_idempotent(n@);
                        assert(rec_wf(self@));
                    }
                }
            },
            None => {
                proof {
                    lemma_spec_insert_absent(old(self)@, upper_seq(n@), v@);
                }
                self.fields.push((un, v.to_owned()));
                proof {
                    assert(self@ =~= spec_insert(old(self)@, upper_seq(n@), v@));
                    if old(self).wf() {
                        lemma_upper_seq_idempotent(n@);
                        assert(rec_wf(self@));
                    }
                }
            },
        }
    }
}

/// `spec_get` finds the first matching position.
pub proof fn lemma_spec_get_at(m: Seq<(Seq<char>, Seq<char>)>, n: Seq<char>, at: int)
    requires
        0 <= at < m.len(),
        m[at].0 == n,
        forall|k: int| 0 <= k < at ==> (#[trigger] m[k]).0 != n,
    ensures
        spec_get(m, n) == Some(m[at].1),
    decreases at,
{
    if at > 0 {
        lemma_spec_get_at(m.drop_first(), n, at - 1);
    }
}

pub proof fn lemma_spec_get_absent(m: Seq<(Seq<char>, Seq<char>)>, n: Seq<char>)
    requires
        forall|k: int| 0 <= k < m.len() ==> (#[trigger] m[k]).0 != n,
    ensures
        spec_get(m, n) is None,
    decreases m.len(),
{
    if m.len() > 0 {
        lemma_spec_get_absent(m.drop_first(), n);
    }
}

/// `spec_insert` at a found position is an update in place, stated without
/// requiring uniqueness beyond the absence of earlier matches.
proof fn lemma_spec_insert_at(m: Seq<(Seq<char>, Seq<char>)>, n: Seq<char>, v: Seq<char>, at: int)
    requires
        0 <= at < m.len(),
        m[at].0 == n,
        forall|k: int| 0 <= k < at ==> (#[trigger] m[k]).0 != n,
    ensures
        spec_insert(m, n, v) =~= m.update(at, (n, v)),
    decreases at,
{
    if at == 0 {
        assert(spec_insert(m, n, v) =~= m.update(0, (n, v)));
    } else {
        lemma_spec_insert_at(m.drop_first(), n, v, at - 1);
        assert(spec_insert(m, n, v) =~= m.update(at, (n, v)));
    }
}

} // verus!
