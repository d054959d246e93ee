//! The value tree of a bencoded document, and how it is put together from the
//! events that the streaming parser of the `bencode` crate reports.

use crate::decoder_helper::{ParseDetail, ParseDetailView};
use crate::syntax::MAX_DEPTH;
use vstd::prelude::*;
use vstd::slice::slice_to_vec;

verus! {

/// A node of a value tree. A dictionary keeps its entries in the order in
/// which the document wrote them.
#[derive(Debug, PartialEq, Eq)]
pub enum Value {
    Integer(i64),
    ByteString(Vec<u8>),
    List(Vec<Value>),
    Dict(Vec<(Vec<u8>, Value)>),
}

/// The model of a [`Value`].
pub enum Tree {
    Integer(i64),
    ByteString(Seq<u8>),
    List(Seq<Tree>),
    Dict(Seq<(Seq<u8>, Tree)>),
}

/// The model of a value: the same tree, with sequences for vectors.
pub open spec fn tree_of(value: Value) -> Tree
    decreases value,
{
    match value {
        Value::Integer(n) => Tree::Integer(n),
        Value::ByteString(bytes) => Tree::ByteString(bytes@),
        Value::List(items) => Tree::List(
            Seq::new(
                items@.len(),
                |i: int|
                    if 0 <= i < items@.len() {
                        tree_of(items@[i])
                    } else {
                        Tree::Integer(0)
                    },
            ),
        ),
        Value::Dict(entries) => Tree::Dict(
            Seq::new(
                entries@.len(),
                |i: int|
                    if 0 <= i < entries@.len() {
                        (entries@[i].0@, tree_of(entries@[i].1))
                    } else {
                        (Seq::empty(), Tree::Integer(0))
                    },
            ),
        ),
    }
}

impl View for Value {
    type V = Tree;

    open spec fn view(&self) -> Tree {
        tree_of(*self)
    }
}

impl DeepView for Value {
    type V = Tree;

    open spec fn deep_view(&self) -> Tree {
        tree_of(*self)
    }
}

impl Clone for Value {
    /// Copies the tree.
    fn clone(&self) -> (copy: Value)
        ensures
            copy@ == self@,
        decreases self,
    {
        match self {
            Value::Integer(n) => Value::Integer(*n),
            Value::ByteString(bytes) => Value::ByteString(slice_to_vec(bytes.as_slice())),
            Value::List(items) => {
                let mut copies: Vec<Value> = Vec::new();
                let mut i: usize = 0;
                while i < items.len()
                    invariant
                        i <= items.len(),
                        *self == Value::List(*items),
                        copies@.len() == i,
                        forall|k: int| 0 <= k < i ==> (#[trigger] copies@[k])@ == items@[k]@,
                    decreases items.len() - i,
                {
                    assert(decreases_to!(*self => (*self)->List_0));
                    assert(decreases_to!(*items => items[i as int]));
                    copies.push(items[i].clone());
                    i += 1;
                }
                proof {
                    lemma_list_view(*items);
                    lemma_list_view(copies);
                    assert(item_views(copies@) =~= item_views(items@));
                }
                Value::List(copies)
            },
            Value::Dict(entries) => {
                let mut copies: Vec<(Vec<u8>, Value)> = Vec::new();
                let mut i: usize = 0;
                while i < entries.len()
                    invariant
                        i <= entries.len(),
                        *self == Value::Dict(*entries),
                        copies@.len() == i,
                        forall|k: int|
                            0 <= k < i ==> (#[trigger] copies@[k]).0@ == entries@[k].0@
                                && copies@[k].1@ == entries@[k].1@,
                    decreases entries.len() - i,
                {
                    let key = slice_to_vec(entries[i].0.as_slice());
                    assert(decreases_to!(*self => (*self)->Dict_0));
                    assert(decreases_to!(*entries => entries[i as int]));
                    assert(decreases_to!(entries[i as int] => entries[i as int].1));
                    copies.push((key, entries[i].1.clone()));
                    i += 1;
                }
                proof {
                    lemma_dict_view(*entries);
                    lemma_dict_view(copies);
                    assert(entry_views(copies@) =~= entry_views(entries@));
                }
                Value::Dict(copies)
            },
        }
    }
}

/// The models of the items of a list.
pub open spec fn item_views(items: Seq<Value>) -> Seq<Tree> {
    Seq::new(items.len(), |i: int| items[i]@)
}

/// The models of the entries of a dictionary.
pub open spec fn entry_views(entries: Seq<(Vec<u8>, Value)>) -> Seq<(Seq<u8>, Tree)> {
    Seq::new(entries.len(), |i: int| (entries[i].0@, entries[i].1@))
}

/// The model of a list is the list of the models of its items.
pub proof fn lemma_list_view(items: Vec<Value>)
    ensures
        Value::List(items)@ == Tree::List(item_views(items@)),
{
    let tree = Value::List(items)@;
    assert(tree is List);
    assert(tree->List_0.len() == items@.len());
    assert(tree->List_0 =~= item_views(items@));
}

/// The model of a dictionary is the list of the models of its entries.
pub proof fn lemma_dict_view(entries: Vec<(Vec<u8>, Value)>)
    ensures
        Value::Dict(entries)@ == Tree::Dict(entry_views(entries@)),
{
    let tree = Value::Dict(entries)@;
    assert(tree is Dict);
    assert(tree->Dict_0.len() == entries@.len());
    assert(tree->Dict_0 =~= entry_views(entries@));
}

/// The value that the entries give to `key`: that of the last entry with
/// this key.
pub open spec fn lookup(entries: Seq<(Seq<u8>, Tree)>, key: Seq<u8>) -> Option<Tree>
    decreases entries.len(),
{
    if entries.len() == 0 {
        None
    } else if entries.last().0 == key {
        Some(entries.last().1)
    } else {
        lookup(entries.drop_last(), key)
    }
}

/// The value that entries give to a key, told from the first entry and the
/// rest: what the rest gives, else what the first entry gives.
pub proof fn lemma_lookup_first(first: (Seq<u8>, Tree), rest: Seq<(Seq<u8>, Tree)>, key: Seq<u8>)
    ensures
        lookup(seq![first] + rest, key) == (match lookup(rest, key) {
            Some(value) => Some(value),
            None => if first.0 == key {
                Some(first.1)
            } else {
                None
            },
        }),
    decreases rest.len(),
{
    let all = seq![first] + rest;
    if rest.len() == 0 {
        assert(all.last() == first);
        assert(all.drop_last() =~= Seq::<(Seq<u8>, Tree)>::empty());
    } else {
        assert(all.last() == rest.last());
        assert(all.drop_last() =~= seq![first] + rest.drop_last());
        lemma_lookup_first(first, rest.drop_last(), key);
    }
}

impl Tree {
    /// The value of `key` in a dictionary; `None` for an absent key and for
    /// a node that is no dictionary.
    pub open spec fn get(self, key: Seq<u8>) -> Option<Tree> {
        match self {
            Tree::Dict(entries) => lookup(entries, key),
            _ => None,
        }
    }
}

/// Tests whether two byte strings are equal.
pub fn bytes_equal(a: &[u8], b: &[u8]) -> (r: bool)
    ensures
        r == (a@ == b@),
{
    if a.len() != b.len() {
        return false;
    }
    let mut i: usize = 0;
    while i < a.len()
        invariant
            i <= a.len(),
            a.len() == b.len(),
            a@.subrange(0, i as int) == b@.subrange(0, i as int),
        decreases a.len() - i,
    {
        if a[i] != b[i] {
            return false;
        }
        assert(a@.subrange(0, i + 1) =~= a@.subrange(0, i as int).push(a@[i as int]));
        assert(b@.subrange(0, i + 1) =~= b@.subrange(0, i as int).push(b@[i as int]));
        i += 1;
    }
    assert(a@ =~= a@.subrange(0, i as int));
    assert(b@ =~= b@.subrange(0, i as int));
    true
}

impl Value {
    /// Looks `key` up in a dictionary.
    pub fn get(&self, key: &[u8]) -> (r: Option<&Value>)
        ensures
            r matches Some(v) ==> self@.get(key@) == Some(v@),
            r is None ==> self@.get(key@) is None,
    {
        match self {
            Value::Dict(entries) => {
                proof {
                    lemma_dict_view(*entries);
                }
                let ghost all = entry_views(entries@);
                let mut i: usize = entries.len();
                assert(all.subrange(0, i as int) =~= all);
                while i > 0
                    invariant
                        i <= entries.len(),
                        all == entry_views(entries@),
                        self@ == Tree::Dict(all),
                        lookup(all, key@) == lookup(all.subrange(0, i as int), key@),
                    decreases i,
                {
                    i -= 1;
                    assert(all.subrange(0, i + 1).drop_last() =~= all.subrange(0, i as int));
                    assert(all.subrange(0, i + 1).last() == all[i as int]);
                    if bytes_equal(entries[i].0.as_slice(), key) {
                        return Some(&entries[i].1);
                    }
                }
                None
            },
            _ => None,
        }
    }
}

/// One event of the streaming parser.
#[derive(Debug, Clone, PartialEq, Eq)]
pub enum Token {
    Number(i64),
    ByteString(Vec<u8>),
    ListStart,
    ListEnd,
    DictStart,
    DictKey(Vec<u8>),
    DictEnd,
    ParseError { pos: u32, msg: String },
}

/// The model of a [`Token`].
pub enum TokenView {
    Number(i64),
    ByteString(Seq<u8>),
    ListStart,
    ListEnd,
    DictStart,
    DictKey(Seq<u8>),
    DictEnd,
    ParseError { pos: u32, msg: Seq<char> },
}

impl View for Token {
    type V = TokenView;

    open spec fn view(&self) -> TokenView {
        match self {
            Token::Number(n) => TokenView::Number(*n),
            Token::ByteString(bytes) => TokenView::ByteString(bytes@),
            Token::ListStart => TokenView::ListStart,
            Token::ListEnd => TokenView::ListEnd,
            Token::DictStart => TokenView::DictStart,
            Token::DictKey(key) => TokenView::DictKey(key@),
            Token::DictEnd => TokenView::DictEnd,
            Token::ParseError { pos, msg } => TokenView::ParseError { pos: *pos, msg: msg@ },
        }
    }
}

/// The models of a sequence of tokens.
pub open spec fn token_views(tokens: Seq<Token>) -> Seq<TokenView> {
    Seq::new(tokens.len(), |i: int| tokens[i]@)
}

/// The value that the tokens from `at` on spell, with the index of the token
/// that follows it. Lists and dictionaries may nest `depth` deep below it.
///
/// A token that reports a parse error gives that error; tokens that spell no
/// value give `Malformed`.
pub open spec fn build_value(tokens: Seq<TokenView>, at: int, depth: nat) -> Result<
    (Tree, int),
    ParseDetailView,
>
    decreases depth, tokens.len() - at, 0int,
{
    if !(0 <= at < tokens.len()) {
        Err(ParseDetailView::Malformed)
    } else {
        match tokens[at] {
            TokenView::Number(n) => Ok((Tree::Integer(n), at + 1)),
            TokenView::ByteString(bytes) => Ok((Tree::ByteString(bytes), at + 1)),
            TokenView::ListStart => if depth > 0 {
                build_list(tokens, at + 1, (depth - 1) as nat, Seq::empty())
            } else {
                Err(ParseDetailView::Malformed)
            },
            TokenView::DictStart => if depth > 0 {
                build_dict(tokens, at + 1, (depth - 1) as nat, Seq::empty())
            } else {
                Err(ParseDetailView::Malformed)
            },
            TokenView::ParseError { pos, msg } => Err(ParseDetailView::Rejected { pos, msg }),
            _ => Err(ParseDetailView::Malformed),
        }
    }
}

/// The list that holds `items` and then the values that the tokens from `at`
/// on spell, up to the token that ends the list.
pub open spec fn build_list(tokens: Seq<TokenView>, at: int, depth: nat, items: Seq<Tree>) -> Result<
    (Tree, int),
    ParseDetailView,
>
    decreases depth, tokens.len() - at, 1int,
{
    if !(0 <= at < tokens.len()) {
        Err(ParseDetailView::Malformed)
    } else if tokens[at] is ListEnd {
        Ok((Tree::List(items), at + 1))
    } else {
        match build_value(tokens, at, depth) {
            Ok((item, next)) => if at < next <= tokens.len() {
                build_list(tokens, next, depth, items.push(item))
            } else {
                Err(ParseDetailView::Malformed)
            },
            Err(e) => Err(e),
        }
    }
}

/// The dictionary that holds `entries` and then the keys and values that the
/// tokens from `at` on spell, up to the token that ends the dictionary.
pub open spec fn build_dict(
    tokens: Seq<TokenView>,
    at: int,
    depth: nat,
    entries: Seq<(Seq<u8>, Tree)>,
) -> Result<(Tree, int), ParseDetailView>
    decreases depth, tokens.len() - at, 1int,
{
    if !(0 <= at < tokens.len()) {
        Err(ParseDetailView::Malformed)
    } else {
        match tokens[at] {
            TokenView::DictEnd => Ok((Tree::Dict(entries), at + 1)),
            TokenView::DictKey(key) => match build_value(tokens, at + 1, depth) {
                Ok((value, next)) => if at + 1 < next <= tokens.len() {
                    build_dict(tokens, next, depth, entries.push((key, value)))
                } else {
                    Err(ParseDetailView::Malformed)
                },
                Err(e) => Err(e),
            },
            TokenView::ParseError { pos, msg } => Err(ParseDetailView::Rejected { pos, msg }),
            _ => Err(ParseDetailView::Malformed),
        }
    }
}

/// The tree of a whole token sequence: one value, nested no deeper than
/// [`MAX_DEPTH`], with no token left over.
pub open spec fn build_tree(tokens: Seq<TokenView>) -> Result<Tree, ParseDetailView> {
    match build_value(tokens, 0, MAX_DEPTH as nat) {
        Ok((tree, next)) => if next == tokens.len() {
            Ok(tree)
        } else {
            match tokens[next] {
                TokenView::ParseError { pos, msg } => Err(ParseDetailView::Rejected { pos, msg }),
                _ => Err(ParseDetailView::Malformed),
            }
        },
        Err(e) => Err(e),
    }
}

/// Whether `r` is the executable form of the result `model`.
pub open spec fn built_as(
    r: Result<(Value, usize), ParseDetail>,
    model: Result<(Tree, int), ParseDetailView>,
) -> bool {
    match r {
        Ok((value, next)) => model == Ok::<(Tree, int), ParseDetailView>((value@, next as int)),
        Err(e) => model == Err::<(Tree, int), ParseDetailView>(e@),
    }
}

impl Value {
    /// Reads the value that the tokens from `at` on spell, and gives it with
    /// the index of the token that follows it.
    pub fn read(tokens: &Vec<Token>, at: usize, depth: usize) -> (r: Result<
        (Value, usize),
        ParseDetail,
    >)
        ensures
            built_as(r, build_value(token_views(tokens@), at as int, depth as nat)),
            r matches Ok((_, next)) ==> at < next <= tokens.len(),
        decreases depth,
    {
        let ghost model = token_views(tokens@);
        if at >= tokens.len() {
            return Err(ParseDetail::Malformed);
        }
        match &tokens[at] {
            Token::Number(n) => Ok((Value::Integer(*n), at + 1)),
            Token::ByteString(bytes) => Ok((Value::ByteString(slice_to_vec(bytes.as_slice())), at + 1)),
            Token::ListStart => {
                if depth == 0 {
                    return Err(ParseDetail::Malformed);
                }
                let mut items: Vec<Value> = Vec::new();
                let mut pos: usize = at + 1;
                assert(item_views(items@) =~= Seq::<Tree>::empty());
                loop
                    invariant
                        at < pos <= tokens.len(),
                        depth > 0,
                        model == token_views(tokens@),
                        build_value(model, at as int, depth as nat) == build_list(
                            model,
                            pos as int,
                            (depth - 1) as nat,
                            item_views(items@),
                        ),
                    decreases tokens.len() - pos,
                {
                    if pos >= tokens.len() {
                        return Err(ParseDetail::Malformed);
                    }
                    if let Token::ListEnd = &tokens[pos] {
                        proof {
                            lemma_list_view(items);
                        }
                        return Ok((Value::List(items), pos + 1));
                    }
                    match Value::read(tokens, pos, depth - 1) {
                        Ok((item, next)) => {
                            let ghost before = item_views(items@);
                            items.push(item);
                            assert(item_views(items@) =~= before.push(item@));
                            pos = next;
                        },
                        Err(e) => {
                            return Err(e);
                        },
                    }
                }
            },
            Token::DictStart => {
                if depth == 0 {
                    return Err(ParseDetail::Malformed);
                }
                let mut entries: Vec<(Vec<u8>, Value)> = Vec::new();
                let mut pos: usize = at + 1;
                assert(entry_views(entries@) =~= Seq::<(Seq<u8>, Tree)>::empty());
                loop
                    invariant
                        at < pos <= tokens.len(),
                        depth > 0,
                        model == token_views(tokens@),
                        build_value(model, at as int, depth as nat) == build_dict(
                            model,
                            pos as int,
                            (depth - 1) as nat,
                            entry_views(entries@),
                        ),
                    decreases tokens.len() - pos,
                {
                    if pos >= tokens.len() {
                        return Err(ParseDetail::Malformed);
                    }
                    match &tokens[pos] {
                        Token::DictEnd => {
                            proof {
                                lemma_dict_view(entries);
                            }
                            return Ok((Value::Dict(entries), pos + 1));
                        },
                        Token::DictKey(key) => {
                            match Value::read(tokens, pos + 1, depth - 1) {
                                Ok((value, next)) => {
                                    let ghost before = entry_views(entries@);
                                    let key = slice_to_vec(key.as_slice());
                                    entries.push((key, value));
                                    assert(entry_views(entries@) =~= before.push((key@, value@)));
                                    pos = next;
                                },
                                Err(e) => {
                                    return Err(e);
                                },
                            }
                        },
                        Token::ParseError { pos: place, msg } => {
                            return Err(ParseDetail::Rejected { pos: *place, msg: msg.clone() });
                        },
                        _ => {
                            return Err(ParseDetail::Malformed);
                        },
                    }
                }
            },
            Token::ParseError { pos, msg } => Err(
                ParseDetail::Rejected { pos: *pos, msg: msg.clone() },
            ),
            _ => Err(ParseDetail::Malformed),
        }
    }

    /// Builds the tree that a whole token sequence spells.
    pub fn from_tokens(tokens: &Vec<Token>) -> (r: Result<Value, ParseDetail>)
        ensures
            r matches Ok(value) ==> build_tree(token_views(tokens@)) == Ok::<Tree, ParseDetailView>(
                value@,
            ),
            r matches Err(e) ==> build_tree(token_views(tokens@)) == Err::<Tree, ParseDetailView>(
                e@,
            ),
    {
        match Value::read(tokens, 0, MAX_DEPTH) {
            Ok((value, next)) => {
                if next == tokens.len() {
                    Ok(value)
                } else {
                    match &tokens[next] {
                        Token::ParseError { pos, msg } => Err(
                            ParseDetail::Rejected { pos: *pos, msg: msg.clone() },
                        ),
                        _ => Err(ParseDetail::Malformed),
                    }
                }
            },
            Err(e) => Err(e),
        }
    }
}

} // verus!
