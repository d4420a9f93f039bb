use vstd::prelude::*;

use crate::bookmarks::{bookmark_bar, flatten, pairs, BookmarkItem};
use crate::value::Value;

verus! {

/// What `str::trim` makes of a text.
pub uninterp spec fn trimmed(s: Seq<char>) -> Seq<char>;

/// Relies on `str::trim`: the text without its leading and trailing whitespace, which depends
/// on the characters alone.
#[verifier::external_body]
fn trim(s: &str) -> (r: &str)
    ensures
        r@ == trimmed(s@),
{
    s.trim()
}

/// The position of the first bookmark called `name`.
pub open spec fn first_named(items: Seq<(Seq<char>, Seq<char>)>, name: Seq<char>) -> Option<int>
    decreases items.len(),
{
    if items.len() == 0 {
        None
    } else if items[0].0 == name {
        Some(0)
    } else {
        match first_named(items.drop_first(), name) {
            Some(i) => Some(i + 1),
            None => None,
        }
    }
}

/// `first_named` is the least position whose name matches, and absent when none does.
pub proof fn lemma_first_named(items: Seq<(Seq<char>, Seq<char>)>, name: Seq<char>)
    ensures
        match first_named(items, name) {
            Some(i) => 0 <= i < items.len() && items[i].0 == name && forall|j: int|
                0 <= j < i ==> items[j].0 != name,
            None => forall|j: int| 0 <= j < items.len() ==> items[j].0 != name,
        },
    decreases items.len(),
{
    if items.len() > 0 && items[0].0 != name {
        let rest = items.drop_first();
        lemma_first_named(rest, name);
        assert forall|j: int| 1 <= j < items.len() implies items[j].0 == rest[j - 1].0 by {}
    }
}

/// The names of the bookmarks, one per line, in list order.
pub open spec fn joined_names(items: Seq<(Seq<char>, Seq<char>)>) -> Seq<char>
    decreases items.len(),
{
    if items.len() == 0 {
        Seq::empty()
    } else if items.len() == 1 {
        items[0].0
    } else {
        joined_names(items.drop_last()) + seq!['\n'] + items.last().0
    }
}

/// The bookmark a picker run selects: none unless the picker succeeded, then the first whose
/// name is the picker's output trimmed.
pub open spec fn selection(
    items: Seq<(Seq<char>, Seq<char>)>,
    succeeded: bool,
    output: Seq<char>,
) -> Option<int> {
    if succeeded {
        first_named(items, trimmed(output))
    } else {
        None
    }
}

/// The text handed to the picker: every bookmark's name, joined by newlines.
pub fn picker_input(bookmarks: &[BookmarkItem]) -> (r: String)
    ensures
        r@ == joined_names(pairs(bookmarks@)),
{
    let ghost all = pairs(bookmarks@);
    let mut out = String::new();
    let mut i: usize = 0;
    while i < bookmarks.len()
        invariant
            0 <= i <= bookmarks@.len(),
            all == pairs(bookmarks@),
            out@ == joined_names(all.take(i as int)),
        decreases bookmarks@.len() - i,
    {
        proof {
            assert(all.take(i + 1).drop_last() =~= all.take(i as int));
            assert(all.take(i + 1).last() == all[i as int]);
            assert(all[i as int].0 == bookmarks@[i as int].name@);
            reveal_strlit("\n");
        }
        if i > 0 {
            out.append("\n");
        }
        out.append(bookmarks[i].name.as_str());
        proof {
            if i == 0 {
                assert(all.take(1)[0] == all[0]);
            } else {
                assert("\n"@ =~= seq!['\n']);
            }
            assert(out@ =~= joined_names(all.take(i + 1)));
        }
        i = i + 1;
    }
    assert(all.take(i as int) =~= all);
    out
}

/// The first bookmark whose name is exactly `name`.
pub fn find_by_name<'a>(bookmarks: &'a [BookmarkItem], name: &str) -> (r: Option<&'a BookmarkItem>)
    ensures
        match first_named(pairs(bookmarks@), name@) {
            Some(i) => r == Some(&bookmarks@[i]),
            None => r is None,
        },
{
    let ghost all = pairs(bookmarks@);
    proof {
        lemma_first_named(all, name@);
    }
    let wanted = String::from_str(name);
    let mut i: usize = 0;
    while i < bookmarks.len()
        invariant
            0 <= i <= bookmarks@.len(),
            all == pairs(bookmarks@),
            wanted@ == name@,
            forall|j: int| 0 <= j < i ==> all[j].0 != name@,
            match first_named(all, name@) {
                Some(k) => 0 <= k < all.len() && all[k].0 == name@ && forall|j: int|
                    0 <= j < k ==> all[j].0 != name@,
                None => forall|j: int| 0 <= j < all.len() ==> all[j].0 != name@,
            },
        decreases bookmarks@.len() - i,
    {
        if bookmarks[i].name == wanted {
            assert(all[i as int].0 == name@);
            return Some(&bookmarks[i]);
        }
        i = i + 1;
    }
    None
}

/// The bookmark that a picker run selected: none when the picker did not succeed, whatever it
/// printed; otherwise the first bookmark whose name equals the picker's output once trimmed.
pub fn search_bookmarks<'a>(
    bookmarks: &'a [BookmarkItem],
    succeeded: bool,
    output: &str,
) -> (r: Option<&'a BookmarkItem>)
    ensures
        !succeeded ==> r is None,
        match selection(pairs(bookmarks@), succeeded, output@) {
            Some(i) => r == Some(&bookmarks@[i]),
            None => r is None,
        },
{
    if succeeded {
        find_by_name(bookmarks, trim(output))
    } else {
        None
    }
}

/// A picker output that, once trimmed, is the name of a bookmark selects that bookmark, and so
/// its url, when no earlier bookmark has the same name.
pub proof fn lemma_selection_round_trip(
    items: Seq<(Seq<char>, Seq<char>)>,
    k: int,
    output: Seq<char>,
)
    requires
        0 <= k < items.len(),
        trimmed(output) == items[k].0,
        forall|j: int| 0 <= j < k ==> items[j].0 != items[k].0,
    ensures
        selection(items, true, output) == Some(k),
        items[selection(items, true, output)->0].1 == items[k].1,
{
    lemma_first_named(items, items[k].0);
}

/// Of two bookmarks with the same name, the later one is never selected by that name: the
/// first bookmark in list order that has it is.
pub proof fn lemma_duplicate_names_first(items: Seq<(Seq<char>, Seq<char>)>, j: int, k: int)
    requires
        0 <= j < k < items.len(),
        items[j].0 == items[k].0,
    ensures
        first_named(items, items[k].0) matches Some(i) && i <= j && items[i].0 == items[k].0,
        forall|output: Seq<char>|
            trimmed(output) == items[k].0 ==> #[trigger] selection(items, true, output)
                != Some(k),
{
    lemma_first_named(items, items[k].0);
}

/// A document without `roots.bookmark_bar` flattens to no bookmarks, the picker is handed an
/// empty text, and no run of it selects anything.
pub proof fn lemma_no_bookmark_bar(doc: Value, succeeded: bool, output: Seq<char>)
    requires
        bookmark_bar(doc) is None,
    ensures
        flatten(doc).len() == 0,
        joined_names(flatten(doc)).len() == 0,
        selection(flatten(doc), succeeded, output) is None,
{
}

} // verus!
