//! The generator: from a document to its indented text.
//!
//! The text is specified by [`render`]. [`Generator::generate`] computes
//! exactly that function on the generator's document, with an empty prefix.
use crate::document::{insert_members, keys_unique, lemma_insert_members_in_order, Document};
use crate::members::Members;
use crate::parser::{lemma_array_view, nodes_view, Node};
use vstd::prelude::*;
use vstd::string::StringExecFns;

verus! {

/// `n` spaces.
pub open spec fn spaces(n: nat) -> Seq<char> {
    Seq::new(n, |i: int| ' ')
}

/// `text` between two quotation marks. Nothing in `text` is escaped.
pub open spec fn quote(text: Seq<char>) -> Seq<char> {
    "\""@ + text + "\""@
}

/// The text of `document`, where the line on which it starts is indented by
/// `prefix` and every further level of nesting by `indent` spaces more.
///
/// A container that is not empty opens, puts each of its items on a line of
/// its own behind `prefix` and `indent` spaces, and closes on a line of its
/// own behind `prefix`. An empty one is its two brackets and nothing else.
pub open spec fn render(document: Document, indent: nat, prefix: Seq<char>) -> Seq<char>
    decreases document,
{
    match document {
        Document::Null => "null"@,
        Document::Boolean(b) => if b {
            "true"@
        } else {
            "false"@
        },
        Document::Number(text) => text,
        Document::String(text) => quote(text),
        Document::Array(items) => if items.len() == 0 {
            "[]"@
        } else {
            "[\n"@ + render_items(items, indent, prefix + spaces(indent)) + "\n"@ + prefix + "]"@
        },
        Document::Object(members) => if members.len() == 0 {
            "{}"@
        } else {
            "{\n"@ + render_members(members, indent, prefix + spaces(indent)) + "\n"@ + prefix
                + "}"@
        },
    }
}

/// The lines of the items of an array: each item behind `prefix`, a comma and
/// a line break between one item and the next.
pub open spec fn render_items(items: Seq<Document>, indent: nat, prefix: Seq<char>) -> Seq<char>
    decreases items,
{
    if items.len() == 0 {
        Seq::empty()
    } else if items.len() == 1 {
        prefix + render(items[0], indent, prefix)
    } else {
        prefix + render(items[0], indent, prefix) + ",\n"@ + render_items(
            items.skip(1),
            indent,
            prefix,
        )
    }
}

/// The line of one member of an object: the key in quotation marks, a colon,
/// a space and the value.
pub open spec fn render_member(member: (Seq<char>, Document), indent: nat, prefix: Seq<char>) -> Seq<
    char,
>
    decreases member,
{
    prefix + quote(member.0) + ": "@ + render(member.1, indent, prefix)
}

/// The lines of the members of an object, in their order: a comma and a line
/// break between one member and the next.
pub open spec fn render_members(
    members: Seq<(Seq<char>, Document)>,
    indent: nat,
    prefix: Seq<char>,
) -> Seq<char>
    decreases members,
{
    if members.len() == 0 {
        Seq::empty()
    } else if members.len() == 1 {
        render_member(members[0], indent, prefix)
    } else {
        render_member(members[0], indent, prefix) + ",\n"@ + render_members(
            members.skip(1),
            indent,
            prefix,
        )
    }
}

/// The lines of the members are the lines of the first `k` of them, a comma
/// and a line break, and the lines of the others: the text lists the members
/// in their order.
pub proof fn lemma_render_members_split(
    members: Seq<(Seq<char>, Document)>,
    k: int,
    indent: nat,
    prefix: Seq<char>,
)
    requires
        0 < k < members.len(),
    ensures
        render_members(members, indent, prefix) == render_members(members.take(k), indent, prefix)
            + ",\n"@ + render_members(members.skip(k), indent, prefix),
    decreases k,
{
    let head = members.take(k);
    assert(head[0] == members[0]);
    if k == 1 {
    } else {
        let others = members.skip(1);
        lemma_render_members_split(others, k - 1, indent, prefix);
        assert(others.take(k - 1) == head.skip(1));
        assert(others.skip(k - 1) == members.skip(k));
        let first = render_member(members[0], indent, prefix);
        let front = render_members(head.skip(1), indent, prefix);
        let back = render_members(members.skip(k), indent, prefix);
        assert(first + ",\n"@ + (front + ",\n"@ + back) == first + ",\n"@ + front + ",\n"@ + back);
    }
}

/// An object that was filled by inserting members with distinct keys is
/// written with its members in the order in which they were inserted,
/// whatever their keys are.
pub proof fn lemma_insertion_order_kept(
    pairs: Seq<(Seq<char>, Document)>,
    indent: nat,
    prefix: Seq<char>,
)
    requires
        keys_unique(pairs),
    ensures
        insert_members(Seq::empty(), pairs) == pairs,
        render(Document::Object(insert_members(Seq::empty(), pairs)), indent, prefix) == render(
            Document::Object(pairs),
            indent,
            prefix,
        ),
        forall|k: int|
            0 < k < pairs.len() ==> render_members(pairs, indent, prefix) == render_members(
                #[trigger] pairs.take(k),
                indent,
                prefix,
            ) + ",\n"@ + render_members(pairs.skip(k), indent, prefix),
{
    assert(Seq::<(Seq<char>, Document)>::empty() + pairs == pairs);
    lemma_insert_members_in_order(Seq::empty(), pairs);
    assert forall|k: int| 0 < k < pairs.len() implies render_members(pairs, indent, prefix)
        == render_members(#[trigger] pairs.take(k), indent, prefix) + ",\n"@ + render_members(
        pairs.skip(k),
        indent,
        prefix,
    ) by {
        lemma_render_members_split(pairs, k, indent, prefix);
    }
}

/// What is left to write of the items of an array when the first `done` of
/// them have been written.
pub open spec fn items_left(items: Seq<Document>, done: int, indent: nat, prefix: Seq<char>) -> Seq<
    char,
> {
    if done >= items.len() {
        Seq::empty()
    } else if done == 0 {
        render_items(items, indent, prefix)
    } else {
        ",\n"@ + render_items(items.skip(done), indent, prefix)
    }
}

/// What is left to write of the members of an object when the first `done`
/// of them have been written.
pub open spec fn members_left(
    members: Seq<(Seq<char>, Document)>,
    done: int,
    indent: nat,
    prefix: Seq<char>,
) -> Seq<char> {
    if done >= members.len() {
        Seq::empty()
    } else if done == 0 {
        render_members(members, indent, prefix)
    } else {
        ",\n"@ + render_members(members.skip(done), indent, prefix)
    }
}

/// Writes a document as indented text.
pub struct Generator {
    node: Node,
    indent_size: usize,
}

impl Generator {
    /// The document that the generator writes.
    pub closed spec fn document(&self) -> Document {
        self.node@
    }

    /// The number of spaces by which each level of nesting is indented.
    pub closed spec fn indent(&self) -> nat {
        self.indent_size as nat
    }

    /// A generator for `node` that indents each level by `indent_size` spaces.
    pub fn new(node: Node, indent_size: usize) -> (r: Self)
        ensures
            r.document() == node@,
            r.indent() == indent_size,
    {
        Self { node, indent_size }
    }

    /// The text of the document.
    pub fn generate(&self) -> (r: String)
        ensures
            r@ == render(self.document(), self.indent(), Seq::empty()),
    {
        proof {
            reveal_strlit("");
            assert(""@ == Seq::<char>::empty());
        }
        self.generate_impl(&self.node, "")
    }

    /// `value` with `indent_size` spaces behind it.
    fn inc_indent(&self, value: &str, indent_size: usize) -> (r: String)
        ensures
            r@ == value@ + spaces(indent_size as nat),
    {
        let mut r = String::from_str(value);
        let mut i: usize = 0;
        while i < indent_size
            invariant
                i <= indent_size,
                r@ == value@ + spaces(i as nat),
            decreases indent_size - i,
        {
            r.push(' ');
            i += 1;
            assert(r@ == value@ + spaces(i as nat));
        }
        r
    }

    /// `value` with `prefix` before it.
    fn add_prefix(&self, value: String, prefix: &str) -> (r: String)
        ensures
            r@ == prefix@ + value@,
    {
        let mut r = String::from_str(prefix);
        r.append(value.as_str());
        r
    }

    fn generate_impl(&self, node: &Node, prefix: &str) -> (r: String)
        ensures
            r@ == render(node@, self.indent(), prefix@),
        decreases node@, 2int,
    {
        match node {
            Node::Null => String::from_str("null"),
            Node::Number(num) => num.clone(),
            Node::String(value) => self.generate_string(value.as_str()),
            Node::Boolean(b) => if *b {
                String::from_str("true")
            } else {
                String::from_str("false")
            },
            Node::Object(kvm) => {
                assert(decreases_to!(node@ => node@->Object_0));
                self.generate_object(kvm, prefix)
            },
            Node::Array(arr) => {
                proof {
                    lemma_array_view(*arr);
                    assert(decreases_to!(node@ => node@->Array_0));
                }
                self.generate_array(arr, prefix)
            },
        }
    }

    fn generate_string(&self, value: &str) -> (r: String)
        ensures
            r@ == quote(value@),
    {
        let mut r = String::from_str("\"");
        r.append(value);
        r.append("\"");
        r
    }

    fn generate_object_inner(&self, kvm: &Members, prefix: &str) -> (r: String)
        ensures
            r@ == render_members(kvm@, self.indent(), prefix@ + spaces(self.indent())),
        decreases kvm@, 0int,
    {
        let new_prefix = self.inc_indent(prefix, self.indent_size);

        let mut inner = String::new();
        let mut i: usize = 0;
        let len = kvm.len();
        while i < len
            invariant
                i <= len,
                len == kvm@.len(),
                new_prefix@ == prefix@ + spaces(self.indent()),
                inner@ + members_left(kvm@, i as int, self.indent(), new_prefix@) == render_members(
                    kvm@,
                    self.indent(),
                    new_prefix@,
                ),
            decreases len - i,
        {
            let ghost left = kvm@.skip(i as int);
            assert(left[0] == kvm@[i as int]);
            assert(left.skip(1) == kvm@.skip(i + 1));
            if i > 0 {
                inner.append(",\n");
            }
            match kvm.get(i) {
                Some((key, node)) => {
                    assert(decreases_to!(kvm@ => kvm@[i as int]));
                    assert(decreases_to!(kvm@[i as int] => kvm@[i as int].1));
                    let mut member = self.generate_string(key.as_str());
                    member.append(": ");
                    member.append(self.generate_impl(node, new_prefix.as_str()).as_str());
                    let member = self.add_prefix(member, new_prefix.as_str());
                    assert(member@ == render_member(left[0], self.indent(), new_prefix@));
                    assert(left == kvm@ || i > 0);
                    inner.append(member.as_str());
                },
                None => {},
            }
            i += 1;
        }
        inner
    }

    fn generate_object(&self, kvm: &Members, prefix: &str) -> (r: String)
        ensures
            r@ == render(Document::Object(kvm@), self.indent(), prefix@),
        decreases kvm@, 1int,
    {
        if kvm.len() == 0 {
            return String::from_str("{}");
        }
        let mut r = String::from_str("{\n");
        r.append(self.generate_object_inner(kvm, prefix).as_str());
        r.append("\n");
        r.append(prefix);
        r.append("}");
        r
    }

    fn generate_array(&self, arr: &Vec<Node>, prefix: &str) -> (r: String)
        ensures
            r@ == render(Document::Array(nodes_view(arr@)), self.indent(), prefix@),
        decreases nodes_view(arr@), 1int,
    {
        if arr.len() == 0 {
            return String::from_str("[]");
        }
        let mut r = String::from_str("[\n");
        r.append(self.generate_array_inner(arr, prefix).as_str());
        r.append("\n");
        r.append(prefix);
        r.append("]");
        r
    }

    fn generate_array_inner(&self, arr: &Vec<Node>, prefix: &str) -> (r: String)
        ensures
            r@ == render_items(nodes_view(arr@), self.indent(), prefix@ + spaces(self.indent())),
        decreases nodes_view(arr@), 0int,
    {
        let new_prefix = self.inc_indent(prefix, self.indent_size);

        let mut inner = String::new();
        let mut i: usize = 0;
        while i < arr.len()
            invariant
                i <= arr.len(),
                new_prefix@ == prefix@ + spaces(self.indent()),
                inner@ + items_left(nodes_view(arr@), i as int, self.indent(), new_prefix@)
                    == render_items(nodes_view(arr@), self.indent(), new_prefix@),
            decreases arr.len() - i,
        {
            let ghost items = nodes_view(arr@);
            let ghost left = items.skip(i as int);
            assert(left[0] == arr[i as int]@);
            assert(left.skip(1) == items.skip(i + 1));
            assert(decreases_to!(items => items[i as int]));
            if i > 0 {
                inner.append(",\n");
            }
            let elm = self.add_prefix(
                self.generate_impl(&arr[i], new_prefix.as_str()),
                new_prefix.as_str(),
            );
            inner.append(elm.as_str());
            i += 1;
        }
        inner
    }
}

} // verus!
