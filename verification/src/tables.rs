//! Byte-string names and name-keyed association lists.
//!
//! Symbol names are byte strings. Tables keyed by name (helper registries,
//! the merged function table, the offset table) are association lists that
//! keep insertion order; inserting an existing key replaces its value in
//! place.

use vstd::prelude::*;

verus! {

/// Copy a byte string.
pub fn copy_bytes(v: &Vec<u8>) -> (r: Vec<u8>)
    ensures
        r@ == v@,
{
    let r = vstd::slice::slice_to_vec(v.as_slice());
    proof {
        assert(r@ =~= v@);
    }
    r
}

/// Compare two byte strings.
pub fn bytes_eq(a: &Vec<u8>, b: &Vec<u8>) -> (r: bool)
    ensures
        r == (a@ == b@),
{
    let r = a == b;
    proof {
        if r {
            assert(a@ =~= b@);
        } else {
            if a@ == b@ {
                assert(forall|i: int| 0 <= i < a@.len() ==> a@[i] == b@[i]);
                assert(false);
            }
        }
    }
    r
}

/// The view of a name/value entry list: each name as its byte sequence.
pub open spec fn entries_view<V>(s: Seq<(Vec<u8>, V)>) -> Seq<(Seq<u8>, V)> {
    s.map_values(|p: (Vec<u8>, V)| (p.0@, p.1))
}

/// The value of the first entry named `name`, if any.
pub open spec fn spec_lookup<V>(s: Seq<(Seq<u8>, V)>, name: Seq<u8>) -> Option<V>
    decreases s.len(),
{
    if s.len() == 0 {
        None
    } else if s[0].0 == name {
        Some(s[0].1)
    } else {
        spec_lookup(s.drop_first(), name)
    }
}

/// Look a name up in an entry list, returning the first match.
pub fn lookup_i32(entries: &Vec<(Vec<u8>, i32)>, name: &Vec<u8>) -> (r: Option<i32>)
    ensures
        r == spec_lookup(entries_view(entries@), name@),
{
    let ghost full = entries_view(entries@);
    proof {
        assert(full.skip(0) =~= full);
    }
    let mut i: usize = 0;
    while i < entries.len()
        invariant
            0 <= i <= entries.len(),
            full == entries_view(entries@),
            spec_lookup(full, name@) == spec_lookup(full.skip(i as int), name@),
        decreases entries.len() - i,
    {
        if bytes_eq(&entries[i].0, name) {
            proof {
                assert(full.skip(i as int)[0] == (entries@[i as int].0@, entries@[i as int].1));
            }
            return Some(entries[i].1);
        }
        proof {
            assert(full.skip(i as int).drop_first() =~= full.skip(i + 1));
            assert(full.skip(i as int)[0] == (entries@[i as int].0@, entries@[i as int].1));
        }
        i = i + 1;
    }
    proof {
        assert(full.skip(entries@.len() as int).len() == 0);
    }
    None
}

/// Look a name up in the merged function table, returning the first match.
pub fn lookup_pair(entries: &Vec<(Vec<u8>, (usize, usize))>, name: &Vec<u8>) -> (r: Option<
    (usize, usize),
>)
    ensures
        r == spec_lookup(entries_view(entries@), name@),
{
    let ghost full = entries_view(entries@);
    proof {
        assert(full.skip(0) =~= full);
    }
    let mut i: usize = 0;
    while i < entries.len()
        invariant
            0 <= i <= entries.len(),
            full == entries_view(entries@),
            spec_lookup(full, name@) == spec_lookup(full.skip(i as int), name@),
        decreases entries.len() - i,
    {
        if bytes_eq(&entries[i].0, name) {
            proof {
                assert(full.skip(i as int)[0] == (entries@[i as int].0@, entries@[i as int].1));
            }
            return Some(entries[i].1);
        }
        proof {
            assert(full.skip(i as int).drop_first() =~= full.skip(i + 1));
            assert(full.skip(i as int)[0] == (entries@[i as int].0@, entries@[i as int].1));
        }
        i = i + 1;
    }
    proof {
        assert(full.skip(entries@.len() as int).len() == 0);
    }
    None
}

/// The qualified form `object:name` a non-global function is keyed by.
pub open spec fn spec_qualified(object: Seq<u8>, name: Seq<u8>) -> Seq<u8> {
    object + seq![58u8] + name
}

/// Build the qualified key `object:name`.
pub fn qualified_name(object: &Vec<u8>, name: &Vec<u8>) -> (r: Vec<u8>)
    ensures
        r@ == spec_qualified(object@, name@),
{
    let mut r: Vec<u8> = Vec::new();
    let mut i: usize = 0;
    while i < object.len()
        invariant
            0 <= i <= object.len(),
            r@ =~= object@.take(i as int),
        decreases object.len() - i,
    {
        r.push(object[i]);
        i = i + 1;
    }
    r.push(58);
    let mut j: usize = 0;
    while j < name.len()
        invariant
            0 <= j <= name.len(),
            r@ =~= object@ + seq![58u8] + name@.take(j as int),
        decreases name.len() - j,
    {
        r.push(name[j]);
        j = j + 1;
    }
    proof {
        assert(r@ =~= spec_qualified(object@, name@));
    }
    r
}

} // verus!
