//! The canonical representation of one extracted supporter entry, and sets of
//! such entries with structural-equality membership.

use vstd::prelude::*;
use crate::text;

verus! {

/// Mathematical model of one supporter record.
#[verifier::ext_equal]
pub ghost struct RecView {
    pub name: Seq<char>,
    pub comment: Option<Seq<char>>,
    pub rating: Option<u8>,
}

/// One supporter entry: a name, an optional comment, and an optional rating.
#[derive(Debug)]
pub struct Record {
    pub name: String,
    pub comment: Option<String>,
    pub rating: Option<u8>,
}

impl View for Record {
    type V = RecView;

    open spec fn view(&self) -> RecView {
        RecView {
            name: self.name@,
            comment: match self.comment {
                Option::Some(c) => Option::Some(c@),
                Option::None => Option::None,
            },
            rating: self.rating,
        }
    }
}

/// A record name is trimmed, non-empty, under 100 characters, and free of the
/// rating glyph.
pub open spec fn valid_name(s: Seq<char>) -> bool {
    &&& text::is_trimmed(s)
    &&& 0 < s.len() < 100
    &&& forall|k: int| 0 <= k < s.len() ==> s[k] != text::STAR
}

/// A present comment is trimmed and non-empty.
pub open spec fn valid_comment(s: Seq<char>) -> bool {
    text::is_trimmed(s) && s.len() > 0
}

/// The invariant of every record the extractor produces.
pub open spec fn valid_rec(r: RecView) -> bool {
    &&& valid_name(r.name)
    &&& match r.comment {
        Option::Some(c) => valid_comment(c),
        Option::None => true,
    }
    &&& match r.rating {
        Option::Some(n) => n >= 1,
        Option::None => true,
    }
}

impl Clone for Record {
    /// Cloning keeps the record's value.
    fn clone(&self) -> (r: Self)
        ensures
            r == *self,
    {
        Record {
            name: self.name.clone(),
            comment: match &self.comment {
                Option::Some(c) => Option::Some(c.clone()),
                Option::None => Option::None,
            },
            rating: self.rating,
        }
    }
}

impl Record {
    /// Structural equality: all three fields must agree.
    pub fn eq_rec(&self, other: &Record) -> (r: bool)
        ensures
            r == (self@ == other@),
    {
        let names = self.name == other.name;
        let comments = match (&self.comment, &other.comment) {
            (Option::Some(a), Option::Some(b)) => *a == *b,
            (Option::None, Option::None) => true,
            _ => false,
        };
        let ratings = match (self.rating, other.rating) {
            (Option::Some(a), Option::Some(b)) => a == b,
            (Option::None, Option::None) => true,
            _ => false,
        };
        let r = names && comments && ratings;
        proof {
            if r {
                assert(self@ =~= other@);
            }
        }
        r
    }
}

/// `s` with `r` appended unless a structurally equal member is present.
pub open spec fn add_unique(s: Seq<RecView>, r: RecView) -> Seq<RecView> {
    if s.contains(r) {
        s
    } else {
        s.push(r)
    }
}

/// Some member of `s` carries the given name.
pub open spec fn has_name(s: Seq<RecView>, name: Seq<char>) -> bool {
    exists|i: int| 0 <= i < s.len() && s[i].name == name
}

/// `s` with a name-only record appended unless the name is already taken.
pub open spec fn add_name_only(s: Seq<RecView>, name: Seq<char>) -> Seq<RecView> {
    if has_name(s, name) {
        s
    } else {
        s.push(RecView { name, comment: Option::None, rating: Option::None })
    }
}

/// The views of a sequence of records.
pub open spec fn rec_views(s: Seq<Record>) -> Seq<RecView> {
    Seq::new(s.len(), |i: int| s[i]@)
}

/// A set of records; membership and uniqueness go by full structural
/// equality, and insertion order carries no meaning.
#[derive(Debug)]
pub struct RecordSet {
    pub records: Vec<Record>,
}

impl View for RecordSet {
    type V = Seq<RecView>;

    open spec fn view(&self) -> Seq<RecView> {
        Seq::new(self.records@.len(), |i: int| self.records@[i]@)
    }
}

impl RecordSet {
    /// No two members are structurally equal.
    pub open spec fn wf(&self) -> bool {
        forall|i: int, j: int| 0 <= i < j < self@.len() ==> self@[i] != self@[j]
    }

    /// The members, as a mathematical set.
    pub open spec fn as_set(&self) -> Set<RecView> {
        self@.to_set()
    }

    /// The empty record set.
    pub fn new() -> (s: RecordSet)
        ensures
            s@ == Seq::<RecView>::empty(),
            s.wf(),
    {
        let s = RecordSet { records: Vec::new() };
        proof {
            assert(s@ =~= Seq::<RecView>::empty());
        }
        s
    }

    /// The number of members.
    pub fn len(&self) -> (n: usize)
        ensures
            n == self@.len(),
    {
        self.records.len()
    }

    /// Whether a structurally equal member is present.
    pub fn contains_rec(&self, r: &Record) -> (b: bool)
        ensures
            b == self@.contains(r@),
    {
        let n = self.records.len();
        let mut i: usize = 0;
        while i < n
            invariant
                n == self.records.len(),
                i <= n,
                forall|k: int| 0 <= k < i ==> self@[k] != r@,
            decreases n - i,
        {
            if self.records[i].eq_rec(r) {
                proof {
                    assert(self@[i as int] == r@);
                }
                return true;
            }
            i += 1;
        }
        proof {
            assert(!self@.contains(r@)) by {
                if self@.contains(r@) {
                    let k = choose|k: int| 0 <= k < self@.len() && self@[k] == r@;
                    assert(self@[k] != r@);
                }
            }
        }
        false
    }

    /// Whether some member carries the given name.
    pub fn contains_name(&self, name: &String) -> (b: bool)
        ensures
            b == has_name(self@, name@),
    {
        let n = self.records.len();
        let mut i: usize = 0;
        while i < n
            invariant
                n == self.records.len(),
                i <= n,
                forall|k: int| 0 <= k < i ==> self@[k].name != name@,
            decreases n - i,
        {
            if self.records[i].name == *name {
                proof {
                    assert(self@[i as int].name == name@);
                }
                return true;
            }
            i += 1;
        }
        false
    }

    /// Inserts `r` unless a structurally equal member is present.
    pub fn insert(&mut self, r: Record)
        ensures
            final(self)@ == add_unique(old(self)@, r@),
            old(self).wf() ==> final(self).wf(),
    {
        if !self.contains_rec(&r) {
            let ghost pre = self@;
            let ghost rv = r@;
            self.records.push(r);
            proof {
                assert(self@ =~= pre.push(rv));
                if old(self).wf() {
                    assert forall|i: int, j: int| 0 <= i < j < self@.len() implies self@[i]
                        != self@[j] by {
                        if j == self@.len() - 1 {
                            assert(!pre.contains(rv));
                            assert(pre[i] != rv);
                        }
                    }
                }
            }
        }
    }

    /// Inserts a name-only record unless the name is already taken.
    pub fn insert_name_only(&mut self, name: String)
        ensures
            final(self)@ == add_name_only(old(self)@, name@),
            old(self).wf() ==> final(self).wf(),
    {
        if !self.contains_name(&name) {
            let ghost pre = self@;
            let ghost nv = name@;
            self.records.push(Record { name, comment: None, rating: None });
            proof {
                assert(self@ =~= pre.push(RecView { name: nv, comment: None, rating: None }));
                if old(self).wf() {
                    assert forall|i: int, j: int| 0 <= i < j < self@.len() implies self@[i]
                        != self@[j] by {
                        if j == self@.len() - 1 {
                            assert(pre[i].name != nv);
                        }
                    }
                }
            }
        }
    }
}

} // verus!
