//! The tree that the bytes of a document encode, and the test that a tree is
//! the one encoded.
//!
//! The trees of this library are built from the events of a parser that is
//! not verified. Before a tree leaves the library it is held against the
//! bytes of the document: it must be the tree that is written down here.

use crate::syntax::{
    dict_end, digit, digits_end, document_entry, entry_span, integer_value, is_digit,
    lemma_decimal_grows, lemma_decimal_in_part, lemma_dict_end_bounds, lemma_digits_end,
    lemma_digits_end_in_part, lemma_entry_is_a_document, lemma_entry_span_holds_a_value,
    lemma_list_end_bounds, lemma_value_end_bounds, lemma_value_end_deeper,
    lemma_value_end_in_part, list_end, read_integer, scan_string, string_content, string_end,
    value_end, well_formed, DICT, END, INT, LIST, MAX_DEPTH, MINUS,
};
use crate::value::{
    bytes_equal, entry_views, item_views, lemma_dict_view, lemma_list_view, lemma_lookup_first,
    lookup, Tree, Value,
};
use vstd::prelude::*;
use vstd::slice::slice_subrange;

verus! {

/// The tree that the value at `at` encodes, where lists and dictionaries may
/// nest `depth` deep below it. It is meant for places where a value stands.
pub open spec fn value_tree(s: Seq<u8>, at: int, depth: nat) -> Tree
    decreases depth, s.len() - at, 0int,
{
    if !(0 <= at < s.len()) {
        Tree::Integer(0)
    } else if s[at] == INT {
        Tree::Integer(integer_value(s, at) as i64)
    } else if is_digit(s[at]) {
        Tree::ByteString(string_content(s, at))
    } else if s[at] == LIST && depth > 0 {
        Tree::List(list_items(s, at + 1, (depth - 1) as nat))
    } else if s[at] == DICT && depth > 0 {
        Tree::Dict(dict_entries(s, at + 1, (depth - 1) as nat))
    } else {
        Tree::Integer(0)
    }
}

/// The items of a list from the place `at` on, up to the `e` that closes it.
pub open spec fn list_items(s: Seq<u8>, at: int, depth: nat) -> Seq<Tree>
    decreases depth, s.len() - at, 1int,
{
    if !(0 <= at < s.len()) || s[at] == END {
        Seq::empty()
    } else {
        match value_end(s, at, depth) {
            Some(next) if at < next <= s.len() => seq![value_tree(s, at, depth)] + list_items(
                s,
                next,
                depth,
            ),
            _ => Seq::empty(),
        }
    }
}

/// The entries of a dictionary from the place `at` on, in the order in which
/// they are written, up to the `e` that closes it.
pub open spec fn dict_entries(s: Seq<u8>, at: int, depth: nat) -> Seq<(Seq<u8>, Tree)>
    decreases depth, s.len() - at, 1int,
{
    if !(0 <= at < s.len()) || !is_digit(s[at]) {
        Seq::empty()
    } else {
        match string_end(s, at) {
            Some(value) if at < value <= s.len() => match value_end(s, value, depth) {
                Some(next) if value < next <= s.len() => seq![
                    (string_content(s, at), value_tree(s, value, depth)),
                ] + dict_entries(s, next, depth),
                _ => Seq::empty(),
            },
            _ => Seq::empty(),
        }
    }
}

/// The tree that a well-formed document encodes.
pub open spec fn document_tree(s: Seq<u8>) -> Option<Tree> {
    if well_formed(s) {
        Some(value_tree(s, 0, MAX_DEPTH as nat))
    } else {
        None
    }
}

/// A value that lies within a part of the bytes encodes the same tree in
/// that part taken by itself.
pub proof fn lemma_value_tree_in_part(s: Seq<u8>, a: int, b: int, at: int, depth: nat)
    requires
        0 <= a <= at,
        b <= s.len(),
        value_end(s, at, depth) matches Some(end) && end <= b,
    ensures
        value_tree(s.subrange(a, b), at - a, depth) == value_tree(s, at, depth),
    decreases depth, s.len() - at, 0int,
{
    let part = s.subrange(a, b);
    lemma_value_end_bounds(s, at, depth);
    assert(part[at - a] == s[at]);
    if s[at] == INT {
        let negative = at + 1 < s.len() && s[at + 1] == MINUS;
        let first = if negative {
            at + 2
        } else {
            at + 1
        };
        lemma_digits_end(s, first);
        lemma_digits_end_in_part(s, a, b, first);
        lemma_decimal_in_part(s, a, b, first, digits_end(s, first));
        assert(part[at + 1 - a] == s[at + 1]);
    } else if is_digit(s[at]) {
        lemma_digits_end(s, at);
        lemma_decimal_grows(s, at, at, digits_end(s, at));
        lemma_digits_end_in_part(s, a, b, at);
        lemma_decimal_in_part(s, a, b, at, digits_end(s, at));
        assert(part[digits_end(s, at) - a] == s[digits_end(s, at)]);
        assert(string_content(part, at - a) =~= string_content(s, at));
    } else if s[at] == LIST {
        lemma_list_items_in_part(s, a, b, at + 1, (depth - 1) as nat);
    } else {
        lemma_dict_entries_in_part(s, a, b, at + 1, (depth - 1) as nat);
    }
}

/// The items of a list that lies within a part of the bytes are the same in
/// that part taken by itself.
pub proof fn lemma_list_items_in_part(s: Seq<u8>, a: int, b: int, at: int, depth: nat)
    requires
        0 <= a <= at,
        b <= s.len(),
        list_end(s, at, depth) matches Some(end) && end <= b,
    ensures
        list_items(s.subrange(a, b), at - a, depth) == list_items(s, at, depth),
    decreases depth, s.len() - at, 1int,
{
    let part = s.subrange(a, b);
    lemma_list_end_bounds(s, at, depth);
    assert(part[at - a] == s[at]);
    if s[at] != END {
        let next = value_end(s, at, depth).unwrap();
        lemma_list_end_bounds(s, next, depth);
        lemma_value_end_in_part(s, a, b, at, depth);
        lemma_value_tree_in_part(s, a, b, at, depth);
        lemma_list_items_in_part(s, a, b, next, depth);
    }
}

/// The entries of a dictionary that lies within a part of the bytes are the
/// same in that part taken by itself.
pub proof fn lemma_dict_entries_in_part(s: Seq<u8>, a: int, b: int, at: int, depth: nat)
    requires
        0 <= a <= at,
        b <= s.len(),
        dict_end(s, at, depth) matches Some(end) && end <= b,
    ensures
        dict_entries(s.subrange(a, b), at - a, depth) == dict_entries(s, at, depth),
    decreases depth, s.len() - at, 1int,
{
    let part = s.subrange(a, b);
    lemma_dict_end_bounds(s, at, depth);
    assert(part[at - a] == s[at]);
    if s[at] != END {
        let value = string_end(s, at).unwrap();
        let next = value_end(s, value, depth).unwrap();
        lemma_dict_end_bounds(s, next, depth);
        lemma_digits_end(s, at);
        lemma_decimal_grows(s, at, at, digits_end(s, at));
        lemma_digits_end_in_part(s, a, b, at);
        lemma_decimal_in_part(s, a, b, at, digits_end(s, at));
        assert(part[digits_end(s, at) - a] == s[digits_end(s, at)]);
        assert(string_content(part, at - a) =~= string_content(s, at));
        lemma_value_end_in_part(s, a, b, value, depth);
        lemma_value_tree_in_part(s, a, b, value, depth);
        lemma_dict_entries_in_part(s, a, b, next, depth);
    }
}

/// A value that may nest to some depth encodes the same tree where it may
/// nest deeper.
pub proof fn lemma_value_tree_deeper(s: Seq<u8>, at: int, depth: nat, more: nat)
    requires
        depth <= more,
        value_end(s, at, depth) is Some,
    ensures
        value_tree(s, at, more) == value_tree(s, at, depth),
    decreases depth, s.len() - at, 0int,
{
    if s[at] != INT && !is_digit(s[at]) {
        if s[at] == LIST {
            lemma_list_items_deeper(s, at + 1, (depth - 1) as nat, (more - 1) as nat);
        } else {
            lemma_dict_entries_deeper(s, at + 1, (depth - 1) as nat, (more - 1) as nat);
        }
    }
}

/// The items of a list that may nest to some depth are the same where they
/// may nest deeper.
pub proof fn lemma_list_items_deeper(s: Seq<u8>, at: int, depth: nat, more: nat)
    requires
        depth <= more,
        list_end(s, at, depth) is Some,
    ensures
        list_items(s, at, more) == list_items(s, at, depth),
    decreases depth, s.len() - at, 1int,
{
    if s[at] != END {
        let next = value_end(s, at, depth).unwrap();
        lemma_value_end_deeper(s, at, depth, more);
        lemma_value_tree_deeper(s, at, depth, more);
        lemma_list_items_deeper(s, next, depth, more);
    }
}

/// The entries of a dictionary whose values may nest to some depth are the
/// same where they may nest deeper.
pub proof fn lemma_dict_entries_deeper(s: Seq<u8>, at: int, depth: nat, more: nat)
    requires
        depth <= more,
        dict_end(s, at, depth) is Some,
    ensures
        dict_entries(s, at, more) == dict_entries(s, at, depth),
    decreases depth, s.len() - at, 1int,
{
    if s[at] != END {
        let value = string_end(s, at).unwrap();
        let next = value_end(s, value, depth).unwrap();
        lemma_value_end_deeper(s, value, depth, more);
        lemma_value_tree_deeper(s, value, depth, more);
        lemma_dict_entries_deeper(s, next, depth, more);
    }
}

/// The byte range that holds the value of a key holds the value that the
/// entries give to the key, and there is no such range where they give none.
pub proof fn lemma_entry_span_is_lookup(s: Seq<u8>, at: int, depth: nat, key: Seq<u8>)
    ensures
        entry_span(s, at, depth, key) matches Some((start, _)) ==> lookup(
            dict_entries(s, at, depth),
            key,
        ) == Some(value_tree(s, start, depth)),
        entry_span(s, at, depth, key) is None ==> lookup(dict_entries(s, at, depth), key) is None,
    decreases s.len() - at,
{
    if 0 <= at < s.len() && is_digit(s[at]) {
        if let Some(value) = string_end(s, at) {
            if at < value <= s.len() {
                if let Some(next) = value_end(s, value, depth) {
                    if value < next <= s.len() {
                        lemma_entry_span_is_lookup(s, next, depth, key);
                        lemma_lookup_first(
                            (string_content(s, at), value_tree(s, value, depth)),
                            dict_entries(s, next, depth),
                            key,
                        );
                    }
                }
            }
        }
    }
}

/// In a well-formed dictionary document, the value that the tree gives to a
/// key is the tree that the bytes of that value encode, taken as a document
/// of their own; and no bytes hold a value for a key that the tree lacks.
pub proof fn lemma_entry_tree(doc: Seq<u8>, key: Seq<u8>)
    requires
        document_tree(doc) matches Some(tree) && tree is Dict,
    ensures
        document_entry(doc, key) matches Some((start, end)) ==> document_tree(
            doc.subrange(start, end),
        ) == document_tree(doc).unwrap().get(key) && document_tree(doc).unwrap().get(key) is Some,
        document_entry(doc, key) is None ==> document_tree(doc).unwrap().get(key) is None,
{
    let depth = (MAX_DEPTH - 1) as nat;
    lemma_entry_span_is_lookup(doc, 1, depth, key);
    if let Some((start, end)) = document_entry(doc, key) {
        lemma_entry_is_a_document(doc, key);
        lemma_entry_span_holds_a_value(doc, 1, depth, key);
        lemma_value_end_in_part(doc, start, end, start, depth);
        lemma_value_tree_in_part(doc, start, end, start, depth);
        lemma_value_tree_deeper(doc.subrange(start, end), 0, depth, MAX_DEPTH as nat);
    }
}

impl Value {
    /// Tests whether the bytes at `at` encode this very tree, and gives the
    /// index just past them.
    pub fn encoded_at(&self, doc: &[u8], at: usize, depth: usize) -> (r: Option<usize>)
        ensures
            r matches Some(end) ==> value_end(doc@, at as int, depth as nat) == Some(end as int)
                && value_tree(doc@, at as int, depth as nat) == self@ && at < end <= doc.len(),
            r is None ==> value_end(doc@, at as int, depth as nat) is None || value_tree(
                doc@,
                at as int,
                depth as nat,
            ) != self@,
        decreases self,
    {
        if at >= doc.len() {
            return None;
        }
        let first = doc[at];
        match self {
            Value::Integer(n) => {
                if first != INT {
                    return None;
                }
                match read_integer(doc, at) {
                    Some((number, end)) => {
                        if number == *n {
                            Some(end)
                        } else {
                            None
                        }
                    },
                    None => None,
                }
            },
            Value::ByteString(bytes) => {
                if !digit(first) {
                    return None;
                }
                match scan_string(doc, at) {
                    Some((start, end)) => {
                        if bytes_equal(slice_subrange(doc, start, end), bytes.as_slice()) {
                            Some(end)
                        } else {
                            None
                        }
                    },
                    None => None,
                }
            },
            Value::List(items) => {
                if first != LIST || depth == 0 {
                    return None;
                }
                proof {
                    lemma_list_view(*items);
                }
                let ghost written = list_items(doc@, at + 1, (depth - 1) as nat);
                let mut pos: usize = at + 1;
                let mut i: usize = 0;
                assert(item_views(items@).subrange(0, 0) + written =~= written);
                while i < items.len()
                    invariant
                        i <= items.len(),
                        at < pos <= doc.len(),
                        depth > 0,
                        *self == Value::List(*items),
                        written == list_items(doc@, at + 1, (depth - 1) as nat),
                        value_end(doc@, at as int, depth as nat) == list_end(
                            doc@,
                            pos as int,
                            (depth - 1) as nat,
                        ),
                        written == item_views(items@).subrange(0, i as int) + list_items(
                            doc@,
                            pos as int,
                            (depth - 1) as nat,
                        ),
                    decreases items.len() - i,
                {
                    assert(decreases_to!(*self => (*self)->List_0));
                    assert(decreases_to!(*items => items[i as int]));
                    if pos >= doc.len() {
                        return None;
                    }
                    if doc[pos] == END {
                        assert(written.len() == i);
                        return None;
                    }
                    match items[i].encoded_at(doc, pos, depth - 1) {
                        Some(next) => {
                            assert(item_views(items@).subrange(0, i + 1) =~= item_views(
                                items@,
                            ).subrange(0, i as int) + seq![items@[i as int]@]);
                            assert(written =~= item_views(items@).subrange(0, i + 1) + list_items(
                                doc@,
                                next as int,
                                (depth - 1) as nat,
                            ));
                            pos = next;
                        },
                        None => {
                            proof {
                                if value_end(doc@, pos as int, (depth - 1) as nat) is Some {
                                    lemma_value_end_bounds(doc@, pos as int, (depth - 1) as nat);
                                    assert(written[i as int] == value_tree(
                                        doc@,
                                        pos as int,
                                        (depth - 1) as nat,
                                    ));
                                }
                            }
                            return None;
                        },
                    }
                    i += 1;
                }
                if pos >= doc.len() {
                    return None;
                }
                if doc[pos] != END {
                    proof {
                        if list_end(doc@, pos as int, (depth - 1) as nat) is Some {
                            assert(written.len() > items@.len());
                        }
                    }
                    return None;
                }
                assert(written =~= item_views(items@));
                Some(pos + 1)
            },
            Value::Dict(entries) => {
                if first != DICT || depth == 0 {
                    return None;
                }
                proof {
                    lemma_dict_view(*entries);
                }
                let ghost written = dict_entries(doc@, at + 1, (depth - 1) as nat);
                let mut pos: usize = at + 1;
                let mut i: usize = 0;
                assert(entry_views(entries@).subrange(0, 0) + written =~= written);
                while i < entries.len()
                    invariant
                        i <= entries.len(),
                        at < pos <= doc.len(),
                        depth > 0,
                        *self == Value::Dict(*entries),
                        written == dict_entries(doc@, at + 1, (depth - 1) as nat),
                        value_end(doc@, at as int, depth as nat) == dict_end(
                            doc@,
                            pos as int,
                            (depth - 1) as nat,
                        ),
                        written == entry_views(entries@).subrange(0, i as int) + dict_entries(
                            doc@,
                            pos as int,
                            (depth - 1) as nat,
                        ),
                    decreases entries.len() - i,
                {
                    assert(decreases_to!(*self => (*self)->Dict_0));
                    assert(decreases_to!(*entries => entries[i as int]));
                    assert(decreases_to!(entries[i as int] => entries[i as int].1));
                    if pos >= doc.len() {
                        return None;
                    }
                    if !digit(doc[pos]) {
                        assert(written.len() == i);
                        return None;
                    }
                    let (start, value) = match scan_string(doc, pos) {
                        Some(key) => key,
                        None => {
                            return None;
                        },
                    };
                    let same_key = bytes_equal(
                        slice_subrange(doc, start, value),
                        entries[i].0.as_slice(),
                    );
                    match entries[i].1.encoded_at(doc, value, depth - 1) {
                        Some(next) => {
                            if !same_key {
                                assert(written[i as int].0 == string_content(doc@, pos as int));
                                return None;
                            }
                            assert(entry_views(entries@).subrange(0, i + 1) =~= entry_views(
                                entries@,
                            ).subrange(0, i as int) + seq![
                                (entries@[i as int].0@, entries@[i as int].1@),
                            ]);
                            assert(written =~= entry_views(entries@).subrange(0, i + 1)
                                + dict_entries(doc@, next as int, (depth - 1) as nat));
                            pos = next;
                        },
                        None => {
                            proof {
                                if value_end(doc@, value as int, (depth - 1) as nat) is Some {
                                    lemma_value_end_bounds(doc@, value as int, (depth - 1) as nat);
                                    assert(written[i as int].1 == value_tree(
                                        doc@,
                                        value as int,
                                        (depth - 1) as nat,
                                    ));
                                }
                            }
                            return None;
                        },
                    }
                    i += 1;
                }
                if pos >= doc.len() {
                    return None;
                }
                if doc[pos] != END {
                    proof {
                        if dict_end(doc@, pos as int, (depth - 1) as nat) is Some {
                            assert(written.len() > entries@.len());
                        }
                    }
                    return None;
                }
                assert(written =~= entry_views(entries@));
                Some(pos + 1)
            },
        }
    }
}

} // verus!
