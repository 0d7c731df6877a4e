//! One package definition: the fields of its manifest table.

use vstd::prelude::*;

use crate::grammar::EntrySeq;
use crate::grammar::entries_wf;
use crate::grammar::has_key;
use crate::grammar::key_at;
use crate::grammar::lemma_key_at_has;
use crate::text::str_eq;

verus! {

/// One package, as a record of the key-value pairs of its table, in
/// manifest order.
#[derive(Debug)]
pub struct Package {
    pub entries: Vec<(String, String)>,
}

impl View for Package {
    type V = EntrySeq;

    open spec fn view(&self) -> EntrySeq {
        Seq::new(self.entries@.len(), |i: int| (self.entries@[i].0@, self.entries@[i].1@))
    }
}

impl Package {
    /// Valid field keys and values, each key at most once.
    pub open spec fn wf(&self) -> bool {
        entries_wf(self@)
    }

    /// The number of fields.
    pub fn len(&self) -> (n: usize)
        ensures
            n == self@.len(),
    {
        self.entries.len()
    }

    /// The value of the field keyed `key`, if the package has one.
    pub fn get<'a>(&'a self, key: &str) -> (r: Option<&'a String>)
        ensures
            match r {
                Some(v) => has_key(self@, key@) && key_at(self@, key@, 0) < self@.len() && v@
                    == self@[key_at(self@, key@, 0)].1,
                None => !has_key(self@, key@),
            },
    {
        let n = self.entries.len();
        let mut i: usize = 0;
        while i < n
            invariant
                n == self@.len(),
                i <= n,
                key_at(self@, key@, 0) == key_at(self@, key@, i as int),
            decreases n - i,
        {
            if str_eq(self.entries[i].0.as_str(), key) {
                proof {
                    assert(self@[i as int].0 == self.entries@[i as int].0@);
                    assert(key_at(self@, key@, i as int) == i as int);
                    assert(has_key(self@, key@));
                }
                return Some(&self.entries[i].1);
            }
            proof {
                assert(self@[i as int].0 == self.entries@[i as int].0@);
                assert(key_at(self@, key@, i as int) == key_at(self@, key@, i as int + 1));
            }
            i = i + 1;
        }
        proof {
            lemma_key_at_has(self@, key@);
        }
        None
    }
}

} // verus!
