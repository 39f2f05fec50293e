//! The input document: an ordered sequence of sections, each an optionally
//! named, ordered list of key/value string pairs.
use vstd::prelude::*;

verus! {

/// One group of key/value pairs of the input document, with its optional name.
/// The entries keep the order the parser saw; a key's first occurrence wins.
pub struct Section {
    pub name: Option<String>,
    pub entries: Vec<(String, String)>,
}

/// The key/value pairs of a list of entries, as sequences of characters.
pub open spec fn pairs_of(entries: Seq<(String, String)>) -> Seq<(Seq<char>, Seq<char>)> {
    entries.map(|i: int, e: (String, String)| (e.0@, e.1@))
}

/// The value of the first pair whose key is `key`, if any.
pub open spec fn lookup(pairs: Seq<(Seq<char>, Seq<char>)>, key: Seq<char>) -> Option<Seq<char>>
    decreases pairs.len(),
{
    if pairs.len() == 0 {
        None
    } else if pairs[0].0 == key {
        Some(pairs[0].1)
    } else {
        lookup(pairs.drop_first(), key)
    }
}

/// Finds the first entry with the given key and hands its value out.
pub fn get_value(entries: &Vec<(String, String)>, key: &String) -> (r: Option<String>)
    ensures
        match r {
            Some(v) => lookup(pairs_of(entries@), key@) == Some(v@),
            None => lookup(pairs_of(entries@), key@) is None,
        },
{
    let ghost ps = pairs_of(entries@);
    let n = entries.len();
    let mut i: usize = 0;
    proof {
        assert(ps.skip(0) =~= ps);
    }
    while i < n
        invariant
            n == entries@.len(),
            ps == pairs_of(entries@),
            i <= n,
            lookup(ps, key@) == lookup(ps.skip(i as int), key@),
        decreases n - i,
    {
        assert(ps.skip(i as int)[0] == ps[i as int]);
        if entries[i].0.eq(key) {
            return Some(entries[i].1.clone());
        }
        proof {
            assert(ps.skip(i as int).drop_first() =~= ps.skip(i + 1));
        }
        i = i + 1;
    }
    assert(ps.skip(n as int).len() == 0);
    None
}

} // verus!
