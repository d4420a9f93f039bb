use vstd::prelude::*;

verus! {

/// A document node: the tagged tree that a bookmarks file holds.
#[derive(Debug, PartialEq, Eq)]
pub enum Value {
    Null,
    Bool(bool),
    /// A number, kept as the text it was written with.
    Number(String),
    Text(String),
    Array(Vec<Value>),
    /// The members of an object, in order; keys are expected to be distinct.
    Object(Vec<(String, Value)>),
}

/// The value of the first member named `key`.
pub open spec fn lookup(members: Seq<(String, Value)>, key: Seq<char>) -> Option<Value>
    decreases members.len(),
{
    if members.len() == 0 {
        None
    } else if members[0].0@ == key {
        Some(members[0].1)
    } else {
        lookup(members.drop_first(), key)
    }
}

/// The combined size of a sequence of nodes.
pub open spec fn sizes(nodes: Seq<Value>) -> nat
    decreases nodes,
{
    if nodes.len() == 0 {
        0
    } else {
        sizes(nodes.drop_last()) + nodes.last().size()
    }
}

/// The combined size of the values of an object's members.
pub open spec fn member_sizes(members: Seq<(String, Value)>) -> nat
    decreases members,
{
    if members.len() == 0 {
        0
    } else {
        members[0].1.size() + member_sizes(members.drop_first())
    }
}

impl Value {
    /// The number of nodes in the tree rooted here.
    pub open spec fn size(self) -> nat
        decreases self,
    {
        match self {
            Value::Array(items) => 1 + sizes(items@),
            Value::Object(members) => 1 + member_sizes(members@),
            _ => 1,
        }
    }

    /// The elements of an array; absent for any other node.
    pub open spec fn elements(self) -> Option<Seq<Value>> {
        match self {
            Value::Array(items) => Some(items@),
            _ => None,
        }
    }

    /// The characters of a string; absent for any other node.
    pub open spec fn text(self) -> Option<Seq<char>> {
        match self {
            Value::Text(t) => Some(t@),
            _ => None,
        }
    }

    /// The elements of an array node.
    pub fn as_array(&self) -> (r: Option<&Vec<Value>>)
        ensures
            match r {
                Some(items) => self.elements() == Some(items@),
                None => self.elements() is None,
            },
    {
        match self {
            Value::Array(items) => Some(items),
            _ => None,
        }
    }

    /// The text of a string node.
    pub fn as_str(&self) -> (r: Option<&str>)
        ensures
            match r {
                Some(t) => self.text() == Some(t@),
                None => self.text() is None,
            },
    {
        match self {
            Value::Text(t) => Some(t.as_str()),
            _ => None,
        }
    }

    /// The member `key` of an object; absent for any other node.
    pub open spec fn field(self, key: Seq<char>) -> Option<Value> {
        match self {
            Value::Object(members) => lookup(members@, key),
            _ => None,
        }
    }

    /// Looks up the member `key` of an object.
    pub fn get(&self, key: &str) -> (r: Option<&Value>)
        ensures
            match r {
                Some(v) => self.field(key@) == Some(*v),
                None => self.field(key@) is None,
            },
    {
        match self {
            Value::Object(members) => {
                let wanted = String::from_str(key);
                let mut i: usize = 0;
                assert(members@.skip(0) =~= members@);
                while i < members.len()
                    invariant
                        wanted@ == key@,
                        0 <= i <= members@.len(),
                        self.field(key@) == lookup(members@.skip(i as int), key@),
                    decreases members@.len() - i,
                {
                    assert(members@.skip(i as int).drop_first() =~= members@.skip(i + 1));
                    assert(members@.skip(i as int)[0] == members@[i as int]);
                    if members[i].0 == wanted {
                        assert(members@.skip(i as int).len() > 0);
                        assert(lookup(members@.skip(i as int), key@) == Some(members@[i as int].1));
                        return Some(&members[i].1);
                    }
                    i = i + 1;
                }
                None
            },
            _ => None,
        }
    }
}

/// A member's value is no larger than all the members' values together.
pub proof fn lemma_lookup_size(members: Seq<(String, Value)>, key: Seq<char>)
    ensures
        lookup(members, key) matches Some(v) ==> v.size() <= member_sizes(members),
    decreases members.len(),
{
    if members.len() > 0 && members[0].0@ != key {
        lemma_lookup_size(members.drop_first(), key);
    }
}

/// Size adds up over concatenation.
pub proof fn lemma_sizes_concat(a: Seq<Value>, b: Seq<Value>)
    ensures
        sizes(a + b) == sizes(a) + sizes(b),
    decreases b.len(),
{
    if b.len() == 0 {
        assert(a + b =~= a);
    } else {
        lemma_sizes_concat(a, b.drop_last());
        assert((a + b).drop_last() =~= a + b.drop_last());
    }
}

} // verus!
