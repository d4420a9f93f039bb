use vstd::prelude::*;

use crate::value::{lemma_lookup_size, lemma_sizes_concat, sizes, Value};

verus! {

/// One bookmark: the name shown in the picker and the address it opens.
#[derive(Debug, Clone, PartialEq, Eq)]
pub struct BookmarkItem {
    pub name: String,
    pub url: String,
}

impl View for BookmarkItem {
    type V = (Seq<char>, Seq<char>);

    open spec fn view(&self) -> (Seq<char>, Seq<char>) {
        (self.name@, self.url@)
    }
}

/// The (name, url) pairs of a list of bookmarks.
pub open spec fn pairs(items: Seq<BookmarkItem>) -> Seq<(Seq<char>, Seq<char>)> {
    items.map_values(|b: BookmarkItem| b@)
}

/// The nodes under `children` when that member is an array; none otherwise.
pub open spec fn children_of(node: Value) -> Seq<Value> {
    match node.field("children"@) {
        Some(Value::Array(items)) => items@,
        _ => Seq::empty(),
    }
}

/// The bookmark a node stands for: it has both a string `name` and a string `url`.
pub open spec fn entry_of(node: Value) -> Option<(Seq<char>, Seq<char>)> {
    match (node.field("name"@), node.field("url"@)) {
        (Some(Value::Text(n)), Some(Value::Text(u))) => Some((n@, u@)),
        _ => None,
    }
}

/// The bookmarks among a list of sibling nodes, in their declared order.
pub open spec fn entries_of(nodes: Seq<Value>) -> Seq<(Seq<char>, Seq<char>)>
    decreases nodes.len(),
{
    if nodes.len() == 0 {
        Seq::empty()
    } else {
        entries_of(nodes.drop_last()) + match entry_of(nodes.last()) {
            Some(e) => seq![e],
            None => Seq::empty(),
        }
    }
}

/// The children of a node are smaller than the node.
pub proof fn lemma_children_smaller(node: Value)
    ensures
        sizes(children_of(node)) < node.size(),
{
    match node {
        Value::Object(members) => {
            lemma_lookup_size(members@, "children"@);
        },
        _ => {},
    }
}

/// The bookmarks collected when `node` is taken from the work-list: those among its children,
/// then those below its children, the last child first.
pub open spec fn visit(node: Value) -> Seq<(Seq<char>, Seq<char>)>
    decreases node.size(), 0nat,
{
    proof {
        lemma_children_smaller(node);
    }
    entries_of(children_of(node)) + visit_stack(children_of(node))
}

/// The bookmarks collected from a work-list until it is empty; its last node is taken first.
pub open spec fn visit_stack(stack: Seq<Value>) -> Seq<(Seq<char>, Seq<char>)>
    decreases sizes(stack), 1nat,
{
    if stack.len() == 0 {
        Seq::empty()
    } else {
        proof {
            assert(stack.last().size() >= 1);
        }
        visit(stack.last()) + visit_stack(stack.drop_last())
    }
}

/// The node at `roots.bookmark_bar`, where the traversal starts.
pub open spec fn bookmark_bar(doc: Value) -> Option<Value> {
    match doc.field("roots"@) {
        Some(roots) => roots.field("bookmark_bar"@),
        None => None,
    }
}

/// The flattened bookmark list of a document.
pub open spec fn flatten(doc: Value) -> Seq<(Seq<char>, Seq<char>)> {
    match bookmark_bar(doc) {
        Some(bar) => visit(bar),
        None => Seq::empty(),
    }
}

/// Pushing nodes onto a work-list: they are all taken before what was below them.
pub proof fn lemma_visit_stack_concat(below: Seq<Value>, top: Seq<Value>)
    ensures
        visit_stack(below + top) == visit_stack(top) + visit_stack(below),
    decreases top.len(),
{
    if top.len() == 0 {
        assert(below + top =~= below);
        assert(visit_stack(top) + visit_stack(below) =~= visit_stack(below));
    } else {
        lemma_visit_stack_concat(below, top.drop_last());
        assert((below + top).drop_last() =~= below + top.drop_last());
        assert((below + top).last() == top.last());
        assert(visit_stack(below + top) =~= visit_stack(top) + visit_stack(below));
    }
}

/// The bookmarks of a document, in traversal order.
pub fn parse_bookmarks(doc: &Value) -> (r: Vec<BookmarkItem>)
    ensures
        pairs(r@) == flatten(*doc),
{
    let mut parsed_bookmarks: Vec<BookmarkItem> = Vec::new();
    parse_bookmarks_recursive(doc, &mut parsed_bookmarks);
    assert(pairs(Seq::<BookmarkItem>::empty()) + flatten(*doc) =~= flatten(*doc));
    parsed_bookmarks
}

/// Every bookmark that a node below `node` stands for has property `p`.
pub open spec fn subtree_entries_satisfy(
    node: Value,
    p: spec_fn((Seq<char>, Seq<char>)) -> bool,
) -> bool
    decreases node.size(), 0nat,
{
    proof {
        lemma_children_smaller(node);
    }
    nodes_entries_satisfy(children_of(node), p)
}

/// Every bookmark that one of `nodes`, or a node below one of them, stands for has property `p`.
pub open spec fn nodes_entries_satisfy(
    nodes: Seq<Value>,
    p: spec_fn((Seq<char>, Seq<char>)) -> bool,
) -> bool
    decreases sizes(nodes), 1nat,
{
    if nodes.len() == 0 {
        true
    } else {
        proof {
            assert(nodes.last().size() >= 1);
        }
        &&& (entry_of(nodes.last()) matches Some(e) ==> p(e))
        &&& subtree_entries_satisfy(nodes.last(), p)
        &&& nodes_entries_satisfy(nodes.drop_last(), p)
    }
}

/// Every pair of the list has property `p`.
pub open spec fn all_satisfy(
    ps: Seq<(Seq<char>, Seq<char>)>,
    p: spec_fn((Seq<char>, Seq<char>)) -> bool,
) -> bool {
    forall|i: int| 0 <= i < ps.len() ==> #[trigger] p(ps[i])
}

/// Both the name and the url are non-empty.
pub open spec fn nonempty_entry(e: (Seq<char>, Seq<char>)) -> bool {
    e.0.len() > 0 && e.1.len() > 0
}

proof fn lemma_all_satisfy_concat(
    a: Seq<(Seq<char>, Seq<char>)>,
    b: Seq<(Seq<char>, Seq<char>)>,
    p: spec_fn((Seq<char>, Seq<char>)) -> bool,
)
    requires
        all_satisfy(a, p),
        all_satisfy(b, p),
    ensures
        all_satisfy(a + b, p),
{
    assert forall|i: int| 0 <= i < (a + b).len() implies #[trigger] p((a + b)[i]) by {
        if i < a.len() {
            assert((a + b)[i] == a[i]);
        } else {
            assert((a + b)[i] == b[i - a.len()]);
        }
    }
}

proof fn lemma_entries_satisfy(nodes: Seq<Value>, p: spec_fn((Seq<char>, Seq<char>)) -> bool)
    requires
        nodes_entries_satisfy(nodes, p),
    ensures
        all_satisfy(entries_of(nodes), p),
    decreases nodes.len(),
{
    if nodes.len() > 0 {
        lemma_entries_satisfy(nodes.drop_last(), p);
        let last: Seq<(Seq<char>, Seq<char>)> = match entry_of(nodes.last()) {
            Some(e) => seq![e],
            None => Seq::empty(),
        };
        assert(all_satisfy(last, p));
        lemma_all_satisfy_concat(entries_of(nodes.drop_last()), last, p);
    }
}

proof fn lemma_visit_satisfies(node: Value, p: spec_fn((Seq<char>, Seq<char>)) -> bool)
    requires
        subtree_entries_satisfy(node, p),
    ensures
        all_satisfy(visit(node), p),
    decreases node.size(), 0nat,
{
    lemma_children_smaller(node);
    lemma_entries_satisfy(children_of(node), p);
    lemma_visit_stack_satisfies(children_of(node), p);
    lemma_all_satisfy_concat(entries_of(children_of(node)), visit_stack(children_of(node)), p);
}

proof fn lemma_visit_stack_satisfies(nodes: Seq<Value>, p: spec_fn((Seq<char>, Seq<char>)) -> bool)
    requires
        nodes_entries_satisfy(nodes, p),
    ensures
        all_satisfy(visit_stack(nodes), p),
    decreases sizes(nodes), 1nat,
{
    if nodes.len() > 0 {
        assert(nodes.last().size() >= 1);
        lemma_visit_satisfies(nodes.last(), p);
        lemma_visit_stack_satisfies(nodes.drop_last(), p);
        lemma_all_satisfy_concat(visit(nodes.last()), visit_stack(nodes.drop_last()), p);
    }
}

/// Flattening yields only bookmarks that nodes of the tree stand for, nodes with both a string
/// `name` and a string `url`: whatever holds of all of those holds of every flattened item.
pub proof fn lemma_flatten_only_entries(doc: Value, p: spec_fn((Seq<char>, Seq<char>)) -> bool)
    requires
        bookmark_bar(doc) matches Some(bar) ==> subtree_entries_satisfy(bar, p),
    ensures
        all_satisfy(flatten(doc), p),
{
    if let Some(bar) = bookmark_bar(doc) {
        lemma_visit_satisfies(bar, p);
    }
}

/// Where every bookmark node below the bookmark bar has a non-empty name and url, every
/// flattened item has a non-empty name and url.
pub proof fn lemma_flatten_nonempty(doc: Value)
    requires
        bookmark_bar(doc) matches Some(bar) ==> subtree_entries_satisfy(
            bar,
            |e: (Seq<char>, Seq<char>)| nonempty_entry(e),
        ),
    ensures
        forall|i: int|
            0 <= i < flatten(doc).len() ==> #[trigger] flatten(doc)[i].0.len() > 0
                && flatten(doc)[i].1.len() > 0,
{
    let p = |e: (Seq<char>, Seq<char>)| nonempty_entry(e);
    lemma_flatten_only_entries(doc, p);
    assert forall|i: int| 0 <= i < flatten(doc).len() implies #[trigger] flatten(doc)[i].0.len()
        > 0 && flatten(doc)[i].1.len() > 0 by {
        assert(p(flatten(doc)[i]));
    }
}

/// The nodes that a work-list of references points to.
pub open spec fn nodes_of(refs: Seq<&Value>) -> Seq<Value> {
    refs.map_values(|r: &Value| *r)
}

/// Appends to `result` the bookmarks below `roots.bookmark_bar` of `bookmarks`: a node is taken
/// from the top of a work-list, each child of it that has a string `name` and a string `url`
/// yields a bookmark, and every child is pushed onto the work-list.
pub fn parse_bookmarks_recursive(bookmarks: &Value, result: &mut Vec<BookmarkItem>)
    ensures
        pairs(final(result)@) == pairs(old(result)@) + flatten(*bookmarks),
{
    let ghost start = pairs(result@);
    let mut stack: Vec<&Value> = Vec::new();
    match bookmarks.get("roots") {
        Some(roots) => match roots.get("bookmark_bar") {
            Some(bar) => {
                stack.push(bar);
                proof {
                    assert(nodes_of(stack@) =~= seq![*bar]);
                    assert(seq![*bar].drop_last() =~= Seq::<Value>::empty());
                    assert(visit_stack(Seq::<Value>::empty()) =~= Seq::empty());
                    assert(seq![*bar].last() == *bar);
                    assert(visit_stack(seq![*bar]) =~= visit(*bar));
                }
            },
            None => {},
        },
        None => {},
    }
    proof {
        assert(start + flatten(*bookmarks) =~= pairs(result@) + visit_stack(nodes_of(stack@)));
    }
    while stack.len() > 0
        invariant
            pairs(result@) + visit_stack(nodes_of(stack@)) == start + flatten(*bookmarks),
        decreases sizes(nodes_of(stack@)),
    {
        let ghost before = pairs(result@);
        let ghost old_stack = nodes_of(stack@);
        let current = stack.pop().unwrap();
        let ghost rest = nodes_of(stack@);
        assert(rest =~= old_stack.drop_last());
        assert(*current == old_stack.last());
        let ghost pushed: Seq<Value> = Seq::empty();
        match current.get("children") {
            Some(c) => match c.as_array() {
                Some(children_array) => {
                    let mut i: usize = 0;
                    assert(children_array@.take(0) =~= Seq::<Value>::empty());
                    assert(rest + children_array@.take(0) =~= rest);
                    while i < children_array.len()
                        invariant
                            0 <= i <= children_array@.len(),
                            nodes_of(stack@) == rest + children_array@.take(i as int),
                            pairs(result@) == before + entries_of(children_array@.take(i as int)),
                        decreases children_array@.len() - i,
                    {
                        let child = &children_array[i];
                        let name = match child.get("name") {
                            Some(n) => n.as_str(),
                            None => None,
                        };
                        let url = match child.get("url") {
                            Some(u) => u.as_str(),
                            None => None,
                        };
                        let ghost r0 = result@;
                        match (name, url) {
                            (Some(name_str), Some(url_str)) => {
                                result.push(
                                    BookmarkItem {
                                        name: String::from_str(name_str),
                                        url: String::from_str(url_str),
                                    },
                                );
                                assert(pairs(result@) =~= pairs(r0) + seq![(name_str@, url_str@)]);
                            },
                            _ => {},
                        }
                        let ghost s0 = stack@;
                        stack.push(child);
                        assert(stack@ == s0.push(child));
                        assert(nodes_of(stack@) =~= nodes_of(s0).push(*child));
                        assert(children_array@.take(i + 1).drop_last() =~= children_array@.take(
                            i as int,
                        ));
                        assert(nodes_of(stack@) =~= rest + children_array@.take(i + 1));
                        i = i + 1;
                    }
                    assert(children_array@.take(i as int) =~= children_array@);
                    proof {
                        pushed = children_array@;
                    }
                },
                None => {},
            },
            None => {},
        }
        proof {
            assert(pushed == children_of(*current));
            assert(nodes_of(stack@) =~= rest + pushed);
            lemma_visit_stack_concat(rest, pushed);
            lemma_sizes_concat(rest, pushed);
            lemma_children_smaller(*current);
            assert(pairs(result@) == before + entries_of(pushed));
            assert(visit_stack(old_stack) == visit(*current) + visit_stack(rest));
            assert(visit(*current) == entries_of(pushed) + visit_stack(pushed));
            assert(pairs(result@) + visit_stack(nodes_of(stack@)) =~= before + visit_stack(
                old_stack,
            ));
        }
    }
}

} // verus!
