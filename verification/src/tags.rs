//! The tag mapping carried by dataset records: string keys to string values,
//! looked up by key. Keys are unique in well-formed data; lookup takes the
//! first match, so it is deterministic either way.

use vstd::prelude::*;

use crate::text::str_eq;

verus! {

/// A record's tags: an ordered list of key/value pairs.
#[derive(Clone)]
pub struct Tags {
    pub pairs: Vec<(String, String)>,
}

impl View for Tags {
    type V = Seq<(Seq<char>, Seq<char>)>;

    open spec fn view(&self) -> Seq<(Seq<char>, Seq<char>)> {
        self.pairs@.map_values(|p: (String, String)| (p.0@, p.1@))
    }
}

/// The value of the first pair whose key matches, if any.
pub open spec fn tags_get(pairs: Seq<(Seq<char>, Seq<char>)>, key: Seq<char>) -> Option<Seq<char>>
    decreases pairs.len(),
{
    if pairs.len() == 0 {
        None
    } else if pairs[0].0 == key {
        Some(pairs[0].1)
    } else {
        tags_get(pairs.drop_first(), key)
    }
}

/// Lookup is unaffected by dropping a prefix of pairs whose keys all differ
/// from the key sought.
proof fn lemma_tags_get_skip(pairs: Seq<(Seq<char>, Seq<char>)>, key: Seq<char>, i: int)
    requires
        0 <= i <= pairs.len(),
        forall|j: int| 0 <= j < i ==> (#[trigger] pairs[j]).0 != key,
    ensures
        tags_get(pairs, key) == tags_get(pairs.skip(i), key),
    decreases i,
{
    if i > 0 {
        lemma_tags_get_skip(pairs, key, i - 1);
        assert(pairs.skip(i - 1).drop_first() =~= pairs.skip(i));
        if pairs.skip(i - 1).len() > 0 {
            assert(pairs.skip(i - 1)[0] == pairs[i - 1]);
        }
    } else {
        assert(pairs.skip(0) =~= pairs);
    }
}

impl Tags {
    /// The value stored under `key`, if any.
    pub fn get<'a>(&'a self, key: &str) -> (r: Option<&'a String>)
        ensures
            match r {
                Some(v) => tags_get(self@, key@) == Some(v@),
                None => tags_get(self@, key@) is None,
            },
    {
        let n = self.pairs.len();
        let mut i: usize = 0;
        while i < n
            invariant
                0 <= i <= n,
                n == self.pairs.len(),
                forall|j: int| 0 <= j < i ==> (#[trigger] self@[j]).0 != key@,
            decreases n - i,
        {
            if str_eq(self.pairs[i].0.as_str(), key) {
                proof {
                    lemma_tags_get_skip(self@, key@, i as int);
                    assert(self@.skip(i as int)[0] == self@[i as int]);
                }
                return Some(&self.pairs[i].1);
            }
            proof {
                assert(self@[i as int].0 == self.pairs@[i as int].0@);
            }
            i += 1;
        }
        proof {
            lemma_tags_get_skip(self@, key@, n as int);
            assert(self@.skip(n as int) =~= Seq::<(Seq<char>, Seq<char>)>::empty());
        }
        None
    }

    /// Whether `key` is present with exactly the value `value`.
    pub fn contains(&self, key: &str, value: &str) -> (r: bool)
        ensures
            r == (tags_get(self@, key@) == Some(value@)),
    {
        match self.get(key) {
            Some(v) => str_eq(v.as_str(), value),
            None => false,
        }
    }
}

} // verus!
