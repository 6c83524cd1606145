//! The members of an object: an insertion-ordered map from keys to nodes,
//! kept in an `indexmap::IndexMap`.
//!
//! The verifier does not look inside the map. What it holds has a name,
//! [`members_of`], and the four functions at the end of this file say, without
//! proof, what the map's own operations do to it. Everything else here is
//! proved from those four contracts.
use crate::document::{insert_member, insert_members, Document};
use crate::parser::Node;
use indexmap::IndexMap;
use vstd::prelude::*;

verus! {

/// The members of one object, in the order in which their keys were first
/// inserted. No two members have the same key. `==` is the map's own: two
/// values are equal when they hold the same keys with equal values, in
/// whatever order.
#[verifier::external_body]
#[derive(Debug, PartialEq, Eq)]
pub struct Members {
    map: IndexMap<String, Node>,
}

/// What `members` holds: the key and the value of each member, in the map's
/// order.
pub uninterp spec fn members_of(members: Members) -> Seq<(Seq<char>, Document)>;

impl View for Members {
    type V = Seq<(Seq<char>, Document)>;

    open spec fn view(&self) -> Seq<(Seq<char>, Document)> {
        members_of(*self)
    }
}

/// The values of a list of keys and nodes.
pub open spec fn pairs_view(pairs: Seq<(String, Node)>) -> Seq<(Seq<char>, Document)> {
    pairs.map_values(|pair: (String, Node)| (pair.0@, pair.1@))
}

impl Members {
    /// No members.
    pub fn new() -> (r: Self)
        ensures
            r@ == Seq::<(Seq<char>, Document)>::empty(),
    {
        map_new()
    }

    /// Gives `key` the value `value`. A key that is there already keeps its
    /// place and loses its old value; a new key comes last.
    pub fn insert(&mut self, key: String, value: Node)
        ensures
            final(self)@ == insert_member(old(self)@, key@, value@),
    {
        map_insert(self, key, value)
    }

    /// The number of members.
    pub fn len(&self) -> (r: usize)
        ensures
            r == self@.len(),
    {
        map_len(self)
    }

    /// The member at `index`, counted from 0 in the order of the members.
    pub fn get(&self, index: usize) -> (r: Option<(&String, &Node)>)
        ensures
            match r {
                Some((key, value)) => index < self@.len() && key@ == self@[index as int].0
                    && value@ == self@[index as int].1,
                None => index >= self@.len(),
            },
    {
        map_get_index(self, index)
    }

    /// The members that inserting each of `pairs` in turn gives.
    pub fn from_pairs(pairs: Vec<(String, Node)>) -> (r: Self)
        ensures
            r@ == insert_members(Seq::empty(), pairs_view(pairs@)),
    {
        let mut members = Members::new();
        let ghost list = pairs@;
        assert(list.skip(0) == list);
        for pair in it: pairs.into_iter()
            invariant
                it.seq() == list,
                insert_members(members@, pairs_view(list.skip(it.index() as int)))
                    == insert_members(Seq::empty(), pairs_view(list)),
        {
            let ghost left = pairs_view(list.skip(it.index() as int));
            assert(left[0] == (pair.0@, pair.1@));
            assert(left.skip(1) == pairs_view(list.skip(it.index() + 1)));
            let (key, value) = pair;
            members.insert(key, value);
        }
        members
    }
}

/// `IndexMap::new`: a map without members.
#[verifier::external_body]
fn map_new() -> (r: Members)
    ensures
        members_of(r) == Seq::<(Seq<char>, Document)>::empty(),
{
    Members { map: IndexMap::new() }
}

/// `IndexMap::insert`: where an equal key is in the map, it keeps its place in
/// the order and its value is replaced; where none is, the pair is added last
/// in the order.
#[verifier::external_body]
fn map_insert(members: &mut Members, key: String, value: Node)
    ensures
        members_of(*final(members)) == insert_member(members_of(*old(members)), key@, value@),
{
    members.map.insert(key, value);
}

/// `IndexMap::len`: the number of key-value pairs in the map.
#[verifier::external_body]
fn map_len(members: &Members) -> (r: usize)
    ensures
        r == members_of(*members).len(),
{
    members.map.len()
}

/// `IndexMap::get_index`: the key-value pair at `index` in the order, for an
/// index below the number of pairs, and nothing for any other.
#[verifier::external_body]
fn map_get_index(members: &Members, index: usize) -> (r: Option<(&String, &Node)>)
    ensures
        match r {
            Some((key, value)) => index < members_of(*members).len() && key@ == members_of(
                *members,
            )[index as int].0 && value@ == members_of(*members)[index as int].1,
            None => index >= members_of(*members).len(),
        },
{
    members.map.get_index(index)
}

} // verus!
