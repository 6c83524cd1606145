//! The document: the mathematical model of one JSON value, over which the
//! contracts of the parser and of the generator are stated.
use vstd::prelude::*;

verus! {

/// One JSON value. A number is the text it was written with. The members of
/// an object are a sequence: they keep the order in which they were written.
pub enum Document {
    Null,
    Boolean(bool),
    Number(Seq<char>),
    String(Seq<char>),
    Array(Seq<Document>),
    Object(Seq<(Seq<char>, Document)>),
}

/// Whether one of `members` has the key `key`.
pub open spec fn has_key(members: Seq<(Seq<char>, Document)>, key: Seq<char>) -> bool {
    exists|i: int| 0 <= i < members.len() && (#[trigger] members[i]).0 == key
}

/// No two of `members` have the same key.
pub open spec fn keys_unique(members: Seq<(Seq<char>, Document)>) -> bool {
    forall|i: int, j: int|
        0 <= i < j < members.len() ==> (#[trigger] members[i]).0 != (#[trigger] members[j]).0
}

/// No object in `document`, at any depth, has two members with the same key.
pub open spec fn unique_keys(document: Document) -> bool
    decreases document,
{
    match document {
        Document::Array(items) => forall|i: int|
            0 <= i < items.len() ==> unique_keys(#[trigger] items[i]),
        Document::Object(members) => keys_unique(members) && forall|i: int|
            0 <= i < members.len() ==> unique_keys((#[trigger] members[i]).1),
        _ => true,
    }
}

/// `members` after `key` has been given the value `value`: the member that
/// has the key keeps its place and gets the new value; where there is none
/// yet, the new member comes last.
pub open spec fn insert_member(
    members: Seq<(Seq<char>, Document)>,
    key: Seq<char>,
    value: Document,
) -> Seq<(Seq<char>, Document)>
    decreases members.len(),
{
    if members.len() == 0 {
        seq![(key, value)]
    } else if members[0].0 == key {
        seq![(key, value)] + members.skip(1)
    } else {
        seq![members[0]] + insert_member(members.skip(1), key, value)
    }
}

/// `members` after each of `pairs` has been inserted in turn.
pub open spec fn insert_members(
    members: Seq<(Seq<char>, Document)>,
    pairs: Seq<(Seq<char>, Document)>,
) -> Seq<(Seq<char>, Document)>
    decreases pairs.len(),
{
    if pairs.len() == 0 {
        members
    } else {
        insert_members(insert_member(members, pairs[0].0, pairs[0].1), pairs.skip(1))
    }
}

/// Inserting a key that is not there yet appends the member.
pub proof fn lemma_insert_new_key(
    members: Seq<(Seq<char>, Document)>,
    key: Seq<char>,
    value: Document,
)
    requires
        !has_key(members, key),
    ensures
        insert_member(members, key, value) == members.push((key, value)),
    decreases members.len(),
{
    if members.len() == 0 {
    } else {
        assert(members[0].0 != key);
        let tail = members.skip(1);
        assert forall|i: int| 0 <= i < tail.len() implies (#[trigger] tail[i]).0 != key by {
            assert(tail[i] == members[i + 1]);
        }
        lemma_insert_new_key(tail, key, value);
        assert(seq![members[0]] + tail.push((key, value)) =~= members.push((key, value)));
    }
}

/// Inserting keeps the number of members or adds one, keeps the keys that
/// were there in their places, and leaves `key` among them.
pub proof fn lemma_insert_member_keys(
    members: Seq<(Seq<char>, Document)>,
    key: Seq<char>,
    value: Document,
)
    ensures
        members.len() <= insert_member(members, key, value).len() <= members.len() + 1,
        forall|i: int|
            0 <= i < members.len() ==> (#[trigger] insert_member(members, key, value)[i]).0
                == members[i].0,
        insert_member(members, key, value).len() == members.len() + 1 ==> !has_key(members, key)
            && insert_member(members, key, value)[members.len() as int] == (key, value),
        has_key(insert_member(members, key, value), key),
    decreases members.len(),
{
    let after = insert_member(members, key, value);
    if members.len() == 0 {
        assert(after[0].0 == key);
    } else if members[0].0 == key {
        assert(after[0].0 == key);
    } else {
        let tail = members.skip(1);
        lemma_insert_member_keys(tail, key, value);
        let tail_after = insert_member(tail, key, value);
        assert forall|i: int| 0 <= i < members.len() implies (#[trigger] after[i]).0
            == members[i].0 by {
            if i > 0 {
                assert(after[i] == tail_after[i - 1]);
                assert(tail[i - 1] == members[i]);
            }
        }
        let k = choose|k: int| 0 <= k < tail_after.len() && (#[trigger] tail_after[k]).0 == key;
        assert(after[k + 1] == tail_after[k]);
        if after.len() == members.len() + 1 {
            assert(!has_key(members, key)) by {
                if has_key(members, key) {
                    let j = choose|j: int| 0 <= j < members.len() && (#[trigger] members[j]).0 == key;
                    assert(tail[j - 1] == members[j]);
                }
            }
            assert(after[members.len() as int] == tail_after[tail.len() as int]);
        }
    }
}

/// After an insertion every member is the new one or one that was there, in
/// its old place.
pub proof fn lemma_insert_member_each(
    members: Seq<(Seq<char>, Document)>,
    key: Seq<char>,
    value: Document,
)
    ensures
        forall|i: int|
            0 <= i < insert_member(members, key, value).len() ==> (#[trigger] insert_member(
                members,
                key,
                value,
            )[i]) == (key, value) || (i < members.len() && insert_member(members, key, value)[i]
                == members[i]),
    decreases members.len(),
{
    let after = insert_member(members, key, value);
    if members.len() == 0 {
    } else if members[0].0 == key {
        assert forall|i: int| 0 <= i < after.len() implies (#[trigger] after[i]) == (key, value)
            || (i < members.len() && after[i] == members[i]) by {
            if i > 0 {
                assert(after[i] == members.skip(1)[i - 1]);
            }
        }
    } else {
        let tail = members.skip(1);
        let tail_after = insert_member(tail, key, value);
        lemma_insert_member_each(tail, key, value);
        assert forall|i: int| 0 <= i < after.len() implies (#[trigger] after[i]) == (key, value)
            || (i < members.len() && after[i] == members[i]) by {
            if i > 0 {
                assert(after[i] == tail_after[i - 1]);
                if tail_after[i - 1] != (key, value) {
                    assert(tail[i - 1] == members[i]);
                }
            }
        }
    }
}

/// Inserting into members with distinct keys leaves the keys distinct.
pub proof fn lemma_insert_member_unique(
    members: Seq<(Seq<char>, Document)>,
    key: Seq<char>,
    value: Document,
)
    requires
        keys_unique(members),
    ensures
        keys_unique(insert_member(members, key, value)),
{
    let after = insert_member(members, key, value);
    lemma_insert_member_keys(members, key, value);
    assert forall|i: int, j: int| 0 <= i < j < after.len() implies (#[trigger] after[i]).0 != (
    #[trigger] after[j]).0 by {
        if j < members.len() {
            assert(after[i].0 == members[i].0);
            assert(after[j].0 == members[j].0);
        } else {
            assert(after[i].0 == members[i].0);
            assert(after[j] == (key, value));
        }
    }
}

/// Members with distinct keys, inserted one after the other, stand in the
/// order in which they were inserted, whatever their keys are.
pub proof fn lemma_insert_members_in_order(
    members: Seq<(Seq<char>, Document)>,
    pairs: Seq<(Seq<char>, Document)>,
)
    requires
        keys_unique(members + pairs),
    ensures
        insert_members(members, pairs) == members + pairs,
    decreases pairs.len(),
{
    let all = members + pairs;
    if pairs.len() == 0 {
        assert(all == members);
    } else {
        let first = pairs[0];
        assert(!has_key(members, first.0)) by {
            if has_key(members, first.0) {
                let i = choose|i: int| 0 <= i < members.len() && (#[trigger] members[i]).0
                    == first.0;
                assert(all[i] == members[i]);
                assert(all[members.len() as int] == first);
            }
        }
        lemma_insert_new_key(members, first.0, first.1);
        assert(members.push(first) + pairs.skip(1) == all);
        lemma_insert_members_in_order(members.push(first), pairs.skip(1));
    }
}

} // verus!
