use std::rc::Rc;

use vstd::prelude::*;
use vstd::slice::slice_to_vec;

use crate::error::DecodeError;
use crate::text::{text_of, utf8_lossy, utf8_text};

verus! {

/// A decoded expression; `None` is the nil expression.
pub type SExp = Option<Rc<SExpCell>>;

/// One node of an expression tree.
#[derive(Debug, PartialEq, Eq)]
pub enum SExpCell {
    Symbol(String),
    ArrayString(Vec<String>),
    List(Vec<ListItem>),
    /// An attribute expression and the value that it describes.
    SExpWithAttrib(SExp, SExp),
}

/// An element of a list node.
#[derive(Debug, PartialEq, Eq)]
pub enum ListItem {
    Car(SExp),
    /// A value and its tag.
    Tagged(SExp, SExp),
}

/// The payload of a message.
#[derive(Debug, PartialEq, Eq)]
pub enum Datum {
    DTInt(i32),
    DTSExp(SExp),
}

/// A decoded message: its command, its id and its payload, if it has one.
#[derive(Debug, PartialEq, Eq)]
pub struct Message {
    pub cmd: u32,
    pub msg_id: u32,
    pub content: Option<Datum>,
}

/// The 16-byte envelope in front of every message.
#[derive(Debug, Clone, Copy, PartialEq, Eq)]
pub struct FrameHeader {
    pub cmd: u32,
    pub len: u32,
    pub msg_id: u32,
    pub len_high: u32,
}

/// An expression tree with its text as characters.
pub enum Tree {
    Nil,
    Symbol(Seq<char>),
    Strings(Seq<Seq<char>>),
    List(Seq<Item>),
    WithAttrib(Box<Tree>, Box<Tree>),
}

/// An element of a list, as characters.
pub enum Item {
    Car(Tree),
    Tagged(Tree, Tree),
}

/// The tree that an expression stands for.
pub open spec fn sexp_view(e: SExp) -> Tree
    decreases e,
{
    match e {
        None => Tree::Nil,
        Some(c) => cell_view(*c),
    }
}

/// The tree that a node stands for.
pub open spec fn cell_view(c: SExpCell) -> Tree
    decreases c,
{
    match c {
        SExpCell::Symbol(s) => Tree::Symbol(s@),
        SExpCell::ArrayString(v) => Tree::Strings(strings_view(v@)),
        SExpCell::List(v) => Tree::List(items_view(v@)),
        SExpCell::SExpWithAttrib(a, x) => Tree::WithAttrib(
            Box::new(sexp_view(a)),
            Box::new(sexp_view(x)),
        ),
    }
}

/// The list elements, in order.
pub open spec fn items_view(v: Seq<ListItem>) -> Seq<Item>
    decreases v,
{
    if v.len() == 0 {
        Seq::empty()
    } else {
        items_view(v.subrange(0, v.len() - 1)).push(item_view(v[v.len() - 1]))
    }
}

/// One list element.
pub open spec fn item_view(i: ListItem) -> Item
    decreases i,
{
    match i {
        ListItem::Car(x) => Item::Car(sexp_view(x)),
        ListItem::Tagged(x, t) => Item::Tagged(sexp_view(x), sexp_view(t)),
    }
}

/// The characters of each string, in order.
pub open spec fn strings_view(v: Seq<String>) -> Seq<Seq<char>> {
    v.map_values(|s: String| s@)
}

/// The text of a byte string; bytes that are not UTF-8 are decoded lossily rather than refused.
pub fn to_string(bytes: &[u8]) -> (r: String)
    ensures
        r@ == text_of(bytes@),
{
    match utf8_text(bytes) {
        Some(s) => s,
        None => utf8_lossy(bytes),
    }
}

/// `i` is where a zero byte first occurs in `b`, or the length of `b` where none does.
pub open spec fn is_name_end(b: Seq<u8>, i: int) -> bool {
    &&& 0 <= i <= b.len()
    &&& i < b.len() ==> b[i] == 0
    &&& forall|j: int| 0 <= j < i ==> b[j] != 0
}

/// The length of the part of `b` before its first zero byte.
pub open spec fn name_end(b: Seq<u8>) -> int {
    choose|i: int| is_name_end(b, i)
}

/// The name of a symbol node: the text before the first zero byte.
pub open spec fn symbol_name(b: Seq<u8>) -> Seq<char> {
    text_of(b.subrange(0, name_end(b)))
}

proof fn lemma_name_end(b: Seq<u8>, i: int)
    requires
        is_name_end(b, i),
    ensures
        name_end(b) == i,
{
    let k = name_end(b);
    assert(is_name_end(b, k));
    if k < i {
        assert(b[k] != 0);
    } else if i < k {
        assert(b[i] != 0);
    }
}

/// A symbol node named by the bytes before the first zero byte.
pub fn to_symbol(bytes: Vec<u8>) -> (r: SExp)
    ensures
        sexp_view(r) == Tree::Symbol(symbol_name(bytes@)),
{
    let mut i: usize = 0;
    while i < bytes.len() && bytes[i] != 0
        invariant
            i <= bytes@.len(),
            forall|j: int| 0 <= j < i ==> bytes@[j] != 0,
        decreases bytes@.len() - i,
    {
        i = i + 1;
    }
    proof {
        lemma_name_end(bytes@, i as int);
    }
    let name = to_string(&bytes.as_slice()[0..i]);
    Some(Rc::new(SExpCell::Symbol(name)))
}

/// A section of a string array as it is kept: nothing where it is padding.
pub open spec fn kept_section(sec: Seq<u8>, skip: bool) -> Seq<Seq<char>> {
    if skip {
        Seq::empty()
    } else {
        seq![text_of(sec)]
    }
}

/// Whether the section after `sec` is padding: a kept section whose terminator does not end
/// on a multiple of four is followed by one; a padding section never is.
pub open spec fn next_is_padding(sec: Seq<u8>, skip: bool) -> bool {
    if skip {
        false
    } else {
        (sec.len() + 1) % 4 != 0
    }
}

/// The strings of the zero-delimited sections of `b` from the section that starts at `start`,
/// scanning from `i`, with padding sections dropped; `skip` says the current section is padding.
pub open spec fn kept_strings(b: Seq<u8>, start: int, i: int, skip: bool) -> Seq<Seq<char>>
    decreases b.len() - i,
{
    if i >= b.len() {
        kept_section(b.subrange(start, b.len() as int), skip)
    } else if b[i] == 0 {
        let sec = b.subrange(start, i);
        kept_section(sec, skip) + kept_strings(b, i + 1, i + 1, next_is_padding(sec, skip))
    } else {
        kept_strings(b, start, i + 1, skip)
    }
}

/// The strings of a string-array payload.
pub open spec fn array_strings(b: Seq<u8>) -> Seq<Seq<char>> {
    kept_strings(b, 0, 0, false)
}

/// A string-array node: the zero-delimited sections of `bytes` with the padding sections
/// dropped.
pub fn to_array_str(bytes: Vec<u8>) -> (r: SExp)
    ensures
        sexp_view(r) == Tree::Strings(array_strings(bytes@)),
{
    let b = bytes.as_slice();
    let mut items: Vec<String> = Vec::new();
    let mut skip_pad = false;
    let mut start: usize = 0;
    let mut i: usize = 0;
    while i < b.len()
        invariant
            b@ == bytes@,
            start <= i <= b@.len(),
            strings_view(items@) + kept_strings(b@, start as int, i as int, skip_pad)
                == array_strings(b@),
        decreases b@.len() - i,
    {
        if b[i] == 0 {
            let ghost sec = b@.subrange(start as int, i as int);
            let ghost before = strings_view(items@);
            if !skip_pad {
                items.push(to_string(&b[start..i]));
            }
            assert(strings_view(items@) =~= before + kept_section(sec, skip_pad));
            skip_pad = if skip_pad {
                false
            } else {
                (i - start + 1) % 4 != 0
            };
            start = i + 1;
        }
        i = i + 1;
    }
    let ghost before = strings_view(items@);
    if !skip_pad {
        items.push(to_string(&b[start..i]));
    }
    assert(strings_view(items@) =~= before + kept_section(
        b@.subrange(start as int, b@.len() as int),
        skip_pad,
    ));
    assert(strings_view(items@) =~= array_strings(b@));
    Some(Rc::new(SExpCell::ArrayString(items)))
}

/// The type tags of expression nodes that the protocol defines.
#[allow(non_camel_case_types)]
#[derive(Debug, Clone, Copy, PartialEq, Eq, Structural)]
pub enum XpressionTypes {
    XT_NULL,
    XT_INT,
    XT_DOUBLE,
    XT_STR,
    XT_LANG,
    XT_SYM,
    XT_BOOL,
    XT_S4,
    XT_VECTOR,
    XT_LIST,
    XT_CLOS,
    XT_SYMNAME,
    XT_LIST_NOTAG,
    XT_LIST_TAG,
    XT_LANG_NOTAG,
    XT_LANG_TAG,
    XT_VECTOR_EXP,
    XT_VECTOR_STR,
    XT_ARRAY_INT,
    XT_ARRAY_DOUBLE,
    XT_ARRAY_STR,
    XT_ARRAY_BOOL_UA,
    XT_ARRAY_BOOL,
    XT_RAW,
    XT_ARRAY_CPLX,
    XT_UNKNOWN,
}

/// Bit of a node's word that says an attribute node comes first.
pub const XT_HAS_ATTR: u32 = 128;

/// Bits of a node's word that hold its type tag.
pub const XT_TYPE_MASK: u32 = 63;

/// The expression type that a tag names, if any.
pub open spec fn xt_of(tag: u32) -> Option<XpressionTypes> {
    match tag {
        0 => Some(XpressionTypes::XT_NULL),
        1 => Some(XpressionTypes::XT_INT),
        2 => Some(XpressionTypes::XT_DOUBLE),
        3 => Some(XpressionTypes::XT_STR),
        4 => Some(XpressionTypes::XT_LANG),
        5 => Some(XpressionTypes::XT_SYM),
        6 => Some(XpressionTypes::XT_BOOL),
        7 => Some(XpressionTypes::XT_S4),
        16 => Some(XpressionTypes::XT_VECTOR),
        17 => Some(XpressionTypes::XT_LIST),
        18 => Some(XpressionTypes::XT_CLOS),
        19 => Some(XpressionTypes::XT_SYMNAME),
        20 => Some(XpressionTypes::XT_LIST_NOTAG),
        21 => Some(XpressionTypes::XT_LIST_TAG),
        22 => Some(XpressionTypes::XT_LANG_NOTAG),
        23 => Some(XpressionTypes::XT_LANG_TAG),
        26 => Some(XpressionTypes::XT_VECTOR_EXP),
        27 => Some(XpressionTypes::XT_VECTOR_STR),
        32 => Some(XpressionTypes::XT_ARRAY_INT),
        33 => Some(XpressionTypes::XT_ARRAY_DOUBLE),
        34 => Some(XpressionTypes::XT_ARRAY_STR),
        35 => Some(XpressionTypes::XT_ARRAY_BOOL_UA),
        36 => Some(XpressionTypes::XT_ARRAY_BOOL),
        37 => Some(XpressionTypes::XT_RAW),
        38 => Some(XpressionTypes::XT_ARRAY_CPLX),
        48 => Some(XpressionTypes::XT_UNKNOWN),
        _ => None,
    }
}

/// The expression types that have a decoding rule.
pub open spec fn is_implemented(xt: XpressionTypes) -> bool {
    xt == XpressionTypes::XT_NULL || xt == XpressionTypes::XT_SYMNAME || xt
        == XpressionTypes::XT_ARRAY_STR || xt == XpressionTypes::XT_LIST_TAG
}

impl XpressionTypes {
    /// The expression type that a tag names, if any.
    pub fn from_tag(tag: u32) -> (r: Option<XpressionTypes>)
        ensures
            r == xt_of(tag),
    {
        match tag {
            0 => Some(XpressionTypes::XT_NULL),
            1 => Some(XpressionTypes::XT_INT),
            2 => Some(XpressionTypes::XT_DOUBLE),
            3 => Some(XpressionTypes::XT_STR),
            4 => Some(XpressionTypes::XT_LANG),
            5 => Some(XpressionTypes::XT_SYM),
            6 => Some(XpressionTypes::XT_BOOL),
            7 => Some(XpressionTypes::XT_S4),
            16 => Some(XpressionTypes::XT_VECTOR),
            17 => Some(XpressionTypes::XT_LIST),
            18 => Some(XpressionTypes::XT_CLOS),
            19 => Some(XpressionTypes::XT_SYMNAME),
            20 => Some(XpressionTypes::XT_LIST_NOTAG),
            21 => Some(XpressionTypes::XT_LIST_TAG),
            22 => Some(XpressionTypes::XT_LANG_NOTAG),
            23 => Some(XpressionTypes::XT_LANG_TAG),
            26 => Some(XpressionTypes::XT_VECTOR_EXP),
            27 => Some(XpressionTypes::XT_VECTOR_STR),
            32 => Some(XpressionTypes::XT_ARRAY_INT),
            33 => Some(XpressionTypes::XT_ARRAY_DOUBLE),
            34 => Some(XpressionTypes::XT_ARRAY_STR),
            35 => Some(XpressionTypes::XT_ARRAY_BOOL_UA),
            36 => Some(XpressionTypes::XT_ARRAY_BOOL),
            37 => Some(XpressionTypes::XT_RAW),
            38 => Some(XpressionTypes::XT_ARRAY_CPLX),
            48 => Some(XpressionTypes::XT_UNKNOWN),
            _ => None,
        }
    }

    /// Splits a node's word into its type, its attribute flag and its declared length.
    pub fn decode(word: u32) -> (r: Result<(XpressionTypes, bool, u32), DecodeError>)
        ensures
            xt_of(word & XT_TYPE_MASK) is None ==> r == Err::<(XpressionTypes, bool, u32), DecodeError>(
                DecodeError::UnknownExpressionType(word & XT_TYPE_MASK),
            ),
            xt_of(word & XT_TYPE_MASK) is Some ==> r == Ok::<(XpressionTypes, bool, u32), DecodeError>(
                (xt_of(word & XT_TYPE_MASK)->0, word & XT_HAS_ATTR != 0, word >> 8),
            ),
    {
        let (has_attr, ty, len) = (word & XT_HAS_ATTR != 0, word & XT_TYPE_MASK, word >> 8);
        match XpressionTypes::from_tag(ty) {
            None => Err(DecodeError::UnknownExpressionType(ty)),
            Some(xt) => Ok((xt, has_attr, len)),
        }
    }

    fn is_implemented(self) -> (r: bool)
        ensures
            r == is_implemented(self),
    {
        match self {
            XpressionTypes::XT_NULL
            | XpressionTypes::XT_SYMNAME
            | XpressionTypes::XT_ARRAY_STR
            | XpressionTypes::XT_LIST_TAG => true,
            _ => false,
        }
    }
}

/// The little-endian 32-bit word at `p`.
pub open spec fn word_at(s: Seq<u8>, p: int) -> u32 {
    (s[p] as u32) | ((s[p + 1] as u32) << 8) | ((s[p + 2] as u32) << 16) | ((s[p + 3] as u32)
        << 24)
}

/// Decoding the node that starts at `p`, where nothing may be read at or after `end` and
/// `depth` more levels of nesting are allowed: the tree and the position after the node.
pub open spec fn parse_sexp(s: Seq<u8>, p: int, end: int, depth: nat) -> Result<
    (Tree, int),
    DecodeError,
>
    decreases depth, 2int, 0int,
{
    if p + 4 > end {
        Err(DecodeError::Truncated)
    } else {
        let w = word_at(s, p);
        let tag = w & XT_TYPE_MASK;
        let node_end = p + 4 + (w >> 8);
        match xt_of(tag) {
            None => Err(DecodeError::UnknownExpressionType(tag)),
            Some(xt) => if w & XT_HAS_ATTR == 0 {
                if !is_implemented(xt) {
                    Err(DecodeError::UnsupportedExpressionType(tag))
                } else if node_end > end {
                    Err(DecodeError::Truncated)
                } else {
                    parse_value(s, xt, p + 4, node_end, depth)
                }
            } else if depth == 0 {
                Err(DecodeError::RecursionLimitExceeded)
            } else {
                // the attribute is read within the node, and within what is there
                let region = if node_end <= end {
                    node_end
                } else {
                    end
                };
                match parse_sexp(s, p + 4, region, (depth - 1) as nat) {
                    Err(e) => Err(e),
                    Ok((a, q)) => if !is_implemented(xt) {
                        Err(DecodeError::UnsupportedExpressionType(tag))
                    } else if node_end > end {
                        Err(DecodeError::Truncated)
                    } else {
                        match parse_value(s, xt, q, node_end, depth) {
                            Err(e) => Err(e),
                            Ok((v, r)) => Ok((Tree::WithAttrib(Box::new(a), Box::new(v)), r)),
                        }
                    },
                }
            },
        }
    }
}

/// Decoding the value of a node of an implemented type `xt` from `q`, the node ending at `end`.
pub open spec fn parse_value(s: Seq<u8>, xt: XpressionTypes, q: int, end: int, depth: nat) -> Result<
    (Tree, int),
    DecodeError,
>
    decreases depth, 1int, 0int,
{
    match xt {
        XpressionTypes::XT_NULL => Ok((Tree::Nil, q)),
        XpressionTypes::XT_SYMNAME => Ok((Tree::Symbol(symbol_name(s.subrange(q, end))), end)),
        XpressionTypes::XT_ARRAY_STR => Ok((Tree::Strings(array_strings(s.subrange(q, end))), end)),
        _ => match parse_list(s, q, end, depth) {
            Err(e) => Err(e),
            Ok((items, r)) => Ok((Tree::List(items), r)),
        },
    }
}

/// Decoding (value, tag) pairs from `q` for as long as the list node, which ends at `end`,
/// has bytes left.
pub open spec fn parse_list(s: Seq<u8>, q: int, end: int, depth: nat) -> Result<
    (Seq<Item>, int),
    DecodeError,
>
    decreases depth, 0int, end - q,
{
    if q >= end {
        Ok((Seq::empty(), q))
    } else if depth == 0 {
        Err(DecodeError::RecursionLimitExceeded)
    } else {
        match parse_sexp(s, q, end, (depth - 1) as nat) {
            Err(e) => Err(e),
            Ok((x, q1)) => match parse_sexp(s, q1, end, (depth - 1) as nat) {
                Err(e) => Err(e),
                Ok((t, q2)) => if q2 <= q || q2 > end {
                    // never taken: every node takes at least its word and stays in its region
                    Err(DecodeError::Truncated)
                } else {
                    prepend_item(Item::Tagged(x, t), parse_list(s, q2, end, depth))
                },
            },
        }
    }
}

/// A list decoding with `it` in front of its items.
pub open spec fn prepend_item(it: Item, r: Result<(Seq<Item>, int), DecodeError>) -> Result<
    (Seq<Item>, int),
    DecodeError,
> {
    match r {
        Err(e) => Err(e),
        Ok((items, q)) => Ok((seq![it] + items, q)),
    }
}

/// A node that decodes takes at least its word and ends within its region.
pub proof fn lemma_sexp_bounds(s: Seq<u8>, p: int, end: int, depth: nat)
    requires
        p <= end,
    ensures
        parse_sexp(s, p, end, depth) matches Ok((_, r)) ==> p + 4 <= r <= end,
    decreases depth, 2int, 0int,
{
    if p + 4 <= end {
        let w = word_at(s, p);
        let node_end = p + 4 + (w >> 8);
        if let Some(xt) = xt_of(w & XT_TYPE_MASK) {
            if node_end <= end {
                if w & XT_HAS_ATTR == 0 {
                    lemma_value_bounds(s, xt, p + 4, node_end, depth);
                } else if depth > 0 {
                    lemma_sexp_bounds(s, p + 4, node_end, (depth - 1) as nat);
                    if let Ok((_, q)) = parse_sexp(s, p + 4, node_end, (depth - 1) as nat) {
                        lemma_value_bounds(s, xt, q, node_end, depth);
                    }
                }
            }
        }
    }
}

/// A value that decodes ends within its node.
pub proof fn lemma_value_bounds(s: Seq<u8>, xt: XpressionTypes, q: int, end: int, depth: nat)
    requires
        q <= end,
    ensures
        parse_value(s, xt, q, end, depth) matches Ok((_, r)) ==> q <= r <= end,
    decreases depth, 1int, 0int,
{
    match xt {
        XpressionTypes::XT_NULL => {},
        XpressionTypes::XT_SYMNAME => {},
        XpressionTypes::XT_ARRAY_STR => {},
        _ => {
            lemma_list_consumes_region(s, q, end, depth);
        },
    }
}

/// A list that decodes ends exactly where its node ends.
pub proof fn lemma_list_consumes_region(s: Seq<u8>, q: int, end: int, depth: nat)
    requires
        q <= end,
    ensures
        parse_list(s, q, end, depth) matches Ok((_, r)) ==> r == end,
    decreases depth, 0int, end - q,
{
    if q < end && depth > 0 {
        lemma_sexp_bounds(s, q, end, (depth - 1) as nat);
        if let Ok((_, q1)) = parse_sexp(s, q, end, (depth - 1) as nat) {
            lemma_sexp_bounds(s, q1, end, (depth - 1) as nat);
            if let Ok((_, q2)) = parse_sexp(s, q1, end, (depth - 1) as nat) {
                if q < q2 <= end {
                    lemma_list_consumes_region(s, q2, end, depth);
                }
            }
        }
    }
}

/// A list decoding with `done` in front of its items.
pub open spec fn prepend_items(done: Seq<Item>, r: Result<(Seq<Item>, int), DecodeError>) -> Result<
    (Seq<Item>, int),
    DecodeError,
> {
    match r {
        Err(e) => Err(e),
        Ok((items, q)) => Ok((done + items, q)),
    }
}

/// An exec decoding agrees with the decoding of the model: the same tree and end, or the
/// same error.
pub open spec fn agrees(r: Result<(SExp, usize), DecodeError>, m: Result<(Tree, int), DecodeError>) -> bool {
    match (r, m) {
        (Ok((e, q)), Ok((t, n))) => sexp_view(e) == t && q == n,
        (Err(e1), Err(e2)) => e1 == e2,
        _ => false,
    }
}

proof fn lemma_items_view_push(v: Seq<ListItem>, it: ListItem)
    ensures
        items_view(v.push(it)) == items_view(v).push(item_view(it)),
{
    assert(v.push(it).subrange(0, v.len() as int) =~= v);
}

/// The little-endian word at `p`.
fn read_word(s: &[u8], p: usize) -> (w: u32)
    requires
        p + 4 <= s@.len(),
    ensures
        w == word_at(s@, p as int),
{
    (s[p] as u32) | ((s[p + 1] as u32) << 8) | ((s[p + 2] as u32) << 16) | ((s[p + 3] as u32)
        << 24)
}

/// Decodes the node that starts at `p` without reading at or past `end`, allowing `depth` more
/// levels of nesting; returns the expression and the position after it.
pub fn decode_sexp(s: &[u8], p: usize, end: usize, depth: u32) -> (r: Result<(SExp, usize), DecodeError>)
    requires
        p <= end <= s@.len(),
    ensures
        agrees(r, parse_sexp(s@, p as int, end as int, depth as nat)),
    decreases depth, 2int,
{
    if end - p < 4 {
        return Err(DecodeError::Truncated);
    }
    let w = read_word(s, p);
    let (xt, has_attr, len) = match XpressionTypes::decode(w) {
        Ok(d) => d,
        Err(e) => return Err(e),
    };
    let fits = len as usize <= end - (p + 4);
    if !has_attr {
        if !xt.is_implemented() {
            return Err(DecodeError::UnsupportedExpressionType(w & XT_TYPE_MASK));
        }
        if !fits {
            return Err(DecodeError::Truncated);
        }
        return decode_value(s, xt, p + 4, p + 4 + len as usize, depth);
    }
    if depth == 0 {
        return Err(DecodeError::RecursionLimitExceeded);
    }
    let region: usize = if fits {
        p + 4 + len as usize
    } else {
        end
    };
    let (a, q) = match decode_sexp(s, p + 4, region, depth - 1) {
        Ok(d) => d,
        Err(e) => return Err(e),
    };
    proof {
        lemma_sexp_bounds(s@, p + 4, region as int, (depth - 1) as nat);
    }
    if !xt.is_implemented() {
        return Err(DecodeError::UnsupportedExpressionType(w & XT_TYPE_MASK));
    }
    if !fits {
        return Err(DecodeError::Truncated);
    }
    match decode_value(s, xt, q, region, depth) {
        Ok((v, r)) => Ok((Some(Rc::new(SExpCell::SExpWithAttrib(a, v))), r)),
        Err(e) => Err(e),
    }
}

/// Decodes the value of a node of type `xt` from `q`, the node ending at `end`.
fn decode_value(s: &[u8], xt: XpressionTypes, q: usize, end: usize, depth: u32) -> (r: Result<
    (SExp, usize),
    DecodeError,
>)
    requires
        q <= end <= s@.len(),
        is_implemented(xt),
    ensures
        agrees(r, parse_value(s@, xt, q as int, end as int, depth as nat)),
    decreases depth, 1int,
{
    match xt {
        XpressionTypes::XT_NULL => Ok((None, q)),
        XpressionTypes::XT_SYMNAME => Ok((to_symbol(slice_to_vec(&s[q..end])), end)),
        XpressionTypes::XT_ARRAY_STR => Ok((to_array_str(slice_to_vec(&s[q..end])), end)),
        _ => {
            let mut items: Vec<ListItem> = Vec::new();
            let mut pos: usize = q;
            while pos < end
                invariant
                    q <= pos <= end <= s@.len(),
                    xt == XpressionTypes::XT_LIST_TAG,
                    parse_list(s@, q as int, end as int, depth as nat) == prepend_items(
                        items_view(items@),
                        parse_list(s@, pos as int, end as int, depth as nat),
                    ),
                decreases end - pos,
            {
                if depth == 0 {
                    return Err(DecodeError::RecursionLimitExceeded);
                }
                let (x, q1) = match decode_sexp(s, pos, end, depth - 1) {
                    Ok(d) => d,
                    Err(e) => return Err(e),
                };
                proof {
                    lemma_sexp_bounds(s@, pos as int, end as int, (depth - 1) as nat);
                }
                let (t, q2) = match decode_sexp(s, q1, end, depth - 1) {
                    Ok(d) => d,
                    Err(e) => return Err(e),
                };
                proof {
                    lemma_sexp_bounds(s@, q1 as int, end as int, (depth - 1) as nat);
                    let it = ListItem::Tagged(x, t);
                    lemma_items_view_push(items@, it);
                    let done = items_view(items@);
                    let rest = parse_list(s@, q2 as int, end as int, depth as nat);
                    if let Ok((more, n)) = rest {
                        assert(done + (seq![item_view(it)] + more) =~= done.push(item_view(it)) + more);
                    }
                }
                items.push(ListItem::Tagged(x, t));
                pos = q2;
            }
            proof {
                assert(items_view(items@) + Seq::<Item>::empty() =~= items_view(items@));
            }
            Ok((Some(Rc::new(SExpCell::List(items))), pos))
        },
    }
}

/// Payload type tag of a 32-bit integer.
pub const DT_INT: u8 = 1;

/// Payload type tag of an encoded expression.
pub const DT_SEXP: u8 = 10;

/// A payload with its expression as a tree.
pub enum DatumView {
    Int(i32),
    Expr(Tree),
}

/// A message with its payload as a tree.
pub struct MessageView {
    pub cmd: u32,
    pub msg_id: u32,
    pub content: Option<DatumView>,
}

/// The model of a payload.
pub open spec fn datum_view(d: Datum) -> DatumView {
    match d {
        Datum::DTInt(i) => DatumView::Int(i),
        Datum::DTSExp(e) => DatumView::Expr(sexp_view(e)),
    }
}

/// The model of a message.
pub open spec fn message_view(m: Message) -> MessageView {
    MessageView {
        cmd: m.cmd,
        msg_id: m.msg_id,
        content: match m.content {
            None => None,
            Some(d) => Some(datum_view(d)),
        },
    }
}

/// Decoding the payload that starts at `p` and runs to the end of `s`: the datum and the
/// position after it.
pub open spec fn parse_datum(s: Seq<u8>, p: int, depth: nat) -> Result<(DatumView, int), DecodeError> {
    if p + 4 > s.len() {
        Err(DecodeError::Truncated)
    } else {
        let ty = (word_at(s, p) & 0xff) as u8;
        if ty == DT_INT {
            if p + 8 > s.len() {
                Err(DecodeError::Truncated)
            } else {
                Ok((DatumView::Int(word_at(s, p + 4) as i32), p + 8))
            }
        } else if ty == DT_SEXP {
            match parse_sexp(s, p + 4, s.len() as int, depth) {
                Err(e) => Err(e),
                Ok((t, q)) => Ok((DatumView::Expr(t), q)),
            }
        } else {
            Err(DecodeError::UnknownDatumType(ty))
        }
    }
}

/// Decoding the 16-byte frame header that starts at `p`.
pub open spec fn parse_header(s: Seq<u8>, p: int) -> Result<FrameHeader, DecodeError> {
    if p + 16 > s.len() {
        Err(DecodeError::Truncated)
    } else {
        Ok(
            FrameHeader {
                cmd: word_at(s, p),
                len: word_at(s, p + 4),
                msg_id: word_at(s, p + 8),
                len_high: word_at(s, p + 12),
            },
        )
    }
}

/// Decoding a message from `p`, after the header `hd` where one was read already: the message
/// or the error, and where the source stands afterwards. A header that cannot be read takes
/// nothing; a refused header, or a payload shorter than announced, leaves the source after the
/// header; a payload is taken whole, whether it then decodes or not.
pub open spec fn parse_message(s: Seq<u8>, p: int, hd: Option<FrameHeader>, depth: nat) -> (
    Result<MessageView, DecodeError>,
    int,
) {
    let h = match hd {
        Some(h) => Ok((h, p)),
        None => match parse_header(s, p) {
            Ok(h) => Ok((h, p + 16)),
            Err(e) => Err(e),
        },
    };
    match h {
        Err(e) => (Err(e), p),
        Ok((h, q)) => if h.len_high != 0 {
            (Err(DecodeError::UnsupportedFraming), q)
        } else if q + h.len > s.len() {
            (Err(DecodeError::Truncated), q)
        } else if h.len == 0 {
            (Ok(MessageView { cmd: h.cmd, msg_id: h.msg_id, content: None }), q)
        } else {
            // the payload is taken from the source whole before it is decoded
            match parse_datum(s.subrange(q, q + h.len), 0, depth) {
                Err(e) => (Err(e), q + h.len),
                Ok((d, _)) => (
                    Ok(MessageView { cmd: h.cmd, msg_id: h.msg_id, content: Some(d) }),
                    q + h.len,
                ),
            }
        },
    }
}

/// Decodes the payload that starts at `p` and runs to the end of `s`.
fn decode_datum(s: &[u8], p: usize, depth: u32) -> (r: Result<(Datum, usize), DecodeError>)
    requires
        p <= s@.len(),
    ensures
        match (r, parse_datum(s@, p as int, depth as nat)) {
            (Ok((d, q)), Ok((m, n))) => datum_view(d) == m && q == n,
            (Err(e1), Err(e2)) => e1 == e2,
            _ => false,
        },
{
    if s.len() - p < 4 {
        return Err(DecodeError::Truncated);
    }
    let word = read_word(s, p);
    let ty = (word & 0xff) as u8;
    if ty == DT_INT {
        if s.len() - p < 8 {
            return Err(DecodeError::Truncated);
        }
        Ok((Datum::DTInt(read_word(s, p + 4) as i32), p + 8))
    } else if ty == DT_SEXP {
        match decode_sexp(s, p + 4, s.len(), depth) {
            Ok((e, q)) => Ok((Datum::DTSExp(e), q)),
            Err(e) => Err(e),
        }
    } else {
        Err(DecodeError::UnknownDatumType(ty))
    }
}

/// Decodes the 16-byte frame header that starts at `p`.
fn decode_header(s: &[u8], p: usize) -> (r: Result<(FrameHeader, usize), DecodeError>)
    requires
        p <= s@.len(),
    ensures
        match (r, parse_header(s@, p as int)) {
            (Ok((h, q)), Ok(m)) => h == m && q == p + 16,
            (Err(e1), Err(e2)) => e1 == e2,
            _ => false,
        },
{
    if s.len() - p < 16 {
        return Err(DecodeError::Truncated);
    }
    let h = FrameHeader {
        cmd: read_word(s, p),
        len: read_word(s, p + 4),
        msg_id: read_word(s, p + 8),
        len_high: read_word(s, p + 12),
    };
    Ok((h, p + 16))
}

/// A frame header that asks for the large-object framing makes the message fail with
/// `UnsupportedFraming`, whatever its other fields hold: one handed over, or one read from
/// the source.
pub proof fn lemma_large_framing_refused(s: Seq<u8>, p: int, h: FrameHeader, depth: nat)
    requires
        h.len_high != 0,
    ensures
        parse_message(s, p, Some(h), depth) == (
            Err::<MessageView, DecodeError>(DecodeError::UnsupportedFraming),
            p,
        ),
        parse_header(s, p) matches Ok(g) && g.len_high != 0 ==> parse_message(s, p, None, depth)
            == (Err::<MessageView, DecodeError>(DecodeError::UnsupportedFraming), p + 16),
{
}

/// A node whose type tag is outside the known set fails with `UnknownExpressionType`. One whose
/// known tag has no decoding rule never yields a tree: without an attribute it fails with
/// `UnsupportedExpressionType`; with one, it fails with `UnsupportedExpressionType` as soon as the
/// attribute decodes from the bytes that are there, whatever length the node declares.
pub proof fn lemma_unknown_tags_fail(s: Seq<u8>, p: int, end: int, depth: nat)
    requires
        p + 4 <= end,
    ensures
        ({
            let w = word_at(s, p);
            let tag = w & XT_TYPE_MASK;
            let node_end = p + 4 + (w >> 8);
            let region = if node_end <= end {
                node_end
            } else {
                end
            };
            &&& xt_of(tag) is None ==> parse_sexp(s, p, end, depth) == Err::<(Tree, int), DecodeError>(
                DecodeError::UnknownExpressionType(tag),
            )
            &&& xt_of(tag) is Some && !is_implemented(xt_of(tag)->0) ==> parse_sexp(s, p, end, depth) is Err
            &&& xt_of(tag) is Some && !is_implemented(xt_of(tag)->0) && w & XT_HAS_ATTR == 0
                ==> parse_sexp(s, p, end, depth) == Err::<(Tree, int), DecodeError>(
                DecodeError::UnsupportedExpressionType(tag),
            )
            &&& xt_of(tag) is Some && !is_implemented(xt_of(tag)->0) && w & XT_HAS_ATTR != 0 && depth
                > 0 && parse_sexp(s, p + 4, region, (depth - 1) as nat) is Ok ==> parse_sexp(
                s,
                p,
                end,
                depth,
            ) == Err::<(Tree, int), DecodeError>(DecodeError::UnsupportedExpressionType(tag))
        }),
{
}

/// A list node that decodes ends exactly where its declared length says: its (value, tag)
/// pairs, after its attribute if it has one, take up the whole of its region.
pub proof fn lemma_list_takes_declared_length(s: Seq<u8>, p: int, end: int, depth: nat)
    requires
        p <= end,
        xt_of(word_at(s, p) & XT_TYPE_MASK) == Some(XpressionTypes::XT_LIST_TAG),
    ensures
        parse_sexp(s, p, end, depth) matches Ok((_, r)) ==> r == p + 4 + (word_at(s, p) >> 8),
{
    let w = word_at(s, p);
    let node_end = p + 4 + (w >> 8);
    let xt = XpressionTypes::XT_LIST_TAG;
    if p + 4 <= end && node_end <= end {
        if w & XT_HAS_ATTR == 0 {
            lemma_list_consumes_region(s, p + 4, node_end, depth);
            assert(parse_value(s, xt, p + 4, node_end, depth) matches Ok((_, r)) ==> r == node_end);
        } else if depth > 0 {
            lemma_sexp_bounds(s, p + 4, node_end, (depth - 1) as nat);
            if let Ok((_, q)) = parse_sexp(s, p + 4, node_end, (depth - 1) as nat) {
                lemma_list_consumes_region(s, q, node_end, depth);
                assert(parse_value(s, xt, q, node_end, depth) matches Ok((_, r)) ==> r == node_end);
            }
        }
    }
}

/// `items` are the (value, tag) pairs that the bytes from `q` up to `end` hold: each node
/// decodes with `depth` levels of nesting allowed, and the last one ends at `end`.
pub open spec fn pairs_decode(s: Seq<u8>, q: int, end: int, depth: nat, items: Seq<Item>) -> bool
    decreases items.len(),
{
    if items.len() == 0 {
        q == end
    } else {
        match parse_sexp(s, q, end, depth) {
            Ok((x, q1)) => match parse_sexp(s, q1, end, depth) {
                Ok((t, q2)) => items[0] == Item::Tagged(x, t) && pairs_decode(
                    s,
                    q2,
                    end,
                    depth,
                    items.drop_first(),
                ),
                Err(_) => false,
            },
            Err(_) => false,
        }
    }
}

proof fn lemma_pairs_decode_list(s: Seq<u8>, q: int, end: int, depth: nat, items: Seq<Item>)
    requires
        q <= end,
        depth > 0,
        pairs_decode(s, q, end, (depth - 1) as nat, items),
    ensures
        parse_list(s, q, end, depth) == Ok::<(Seq<Item>, int), DecodeError>((items, end)),
    decreases items.len(),
{
    if items.len() > 0 {
        let d1 = (depth - 1) as nat;
        lemma_sexp_bounds(s, q, end, d1);
        if let Ok((_, q1)) = parse_sexp(s, q, end, d1) {
            lemma_sexp_bounds(s, q1, end, d1);
            if let Ok((_, q2)) = parse_sexp(s, q1, end, d1) {
                lemma_pairs_decode_list(s, q2, end, depth, items.drop_first());
                assert(seq![items[0]] + items.drop_first() =~= items);
                assert(q < q2);
                assert(parse_list(s, q, end, depth) == prepend_item(
                    items[0],
                    parse_list(s, q2, end, depth),
                ));
            }
        }
    } else {
        assert(items =~= Seq::<Item>::empty());
    }
}

/// A tagged-list node whose region holds well-formed (value, tag) pairs decodes to the list of
/// those pairs, one `Tagged` element each, and ends exactly after its declared length.
pub proof fn lemma_well_formed_list_decodes(
    s: Seq<u8>,
    p: int,
    end: int,
    depth: nat,
    items: Seq<Item>,
)
    requires
        p + 4 <= end,
        depth > 0,
        xt_of(word_at(s, p) & XT_TYPE_MASK) == Some(XpressionTypes::XT_LIST_TAG),
        word_at(s, p) & XT_HAS_ATTR == 0,
        p + 4 + (word_at(s, p) >> 8) <= end,
        pairs_decode(s, p + 4, p + 4 + (word_at(s, p) >> 8), (depth - 1) as nat, items),
    ensures
        parse_sexp(s, p, end, depth) == Ok::<(Tree, int), DecodeError>(
            (Tree::List(items), p + 4 + (word_at(s, p) >> 8)),
        ),
{
    let node_end = p + 4 + (word_at(s, p) >> 8);
    lemma_pairs_decode_list(s, p + 4, node_end, depth, items);
    assert(parse_value(s, XpressionTypes::XT_LIST_TAG, p + 4, node_end, depth) == Ok::<
        (Tree, int),
        DecodeError,
    >((Tree::List(items), node_end)));
}

/// A node that decodes under a nesting limit decodes to the same tree under any larger one.
pub proof fn lemma_sexp_depth_monotone(s: Seq<u8>, p: int, end: int, d1: nat, d2: nat)
    requires
        d1 <= d2,
        parse_sexp(s, p, end, d1) is Ok,
    ensures
        parse_sexp(s, p, end, d2) == parse_sexp(s, p, end, d1),
    decreases d1, 2int, 0int,
{
    let w = word_at(s, p);
    let node_end = p + 4 + (w >> 8);
    let xt = xt_of(w & XT_TYPE_MASK)->0;
    if w & XT_HAS_ATTR == 0 {
        lemma_value_depth_monotone(s, xt, p + 4, node_end, d1, d2);
    } else {
        lemma_sexp_depth_monotone(s, p + 4, node_end, (d1 - 1) as nat, (d2 - 1) as nat);
        if let Ok((_, q)) = parse_sexp(s, p + 4, node_end, (d1 - 1) as nat) {
            lemma_value_depth_monotone(s, xt, q, node_end, d1, d2);
        }
    }
}

proof fn lemma_value_depth_monotone(s: Seq<u8>, xt: XpressionTypes, q: int, end: int, d1: nat, d2: nat)
    requires
        d1 <= d2,
        parse_value(s, xt, q, end, d1) is Ok,
    ensures
        parse_value(s, xt, q, end, d2) == parse_value(s, xt, q, end, d1),
    decreases d1, 1int, 0int,
{
    match xt {
        XpressionTypes::XT_NULL => {},
        XpressionTypes::XT_SYMNAME => {},
        XpressionTypes::XT_ARRAY_STR => {},
        _ => {
            lemma_list_depth_monotone(s, q, end, d1, d2);
        },
    }
}

proof fn lemma_list_depth_monotone(s: Seq<u8>, q: int, end: int, d1: nat, d2: nat)
    requires
        d1 <= d2,
        parse_list(s, q, end, d1) is Ok,
    ensures
        parse_list(s, q, end, d2) == parse_list(s, q, end, d1),
    decreases d1, 0int, end - q,
{
    if q < end {
        let (e1, e2) = ((d1 - 1) as nat, (d2 - 1) as nat);
        lemma_sexp_depth_monotone(s, q, end, e1, e2);
        if let Ok((_, q1)) = parse_sexp(s, q, end, e1) {
            lemma_sexp_depth_monotone(s, q1, end, e1, e2);
            if let Ok((_, q2)) = parse_sexp(s, q1, end, e1) {
                if q < q2 <= end {
                    lemma_list_depth_monotone(s, q2, end, d1, d2);
                }
            }
        }
    }
}

/// Decoding is deterministic: two results that agree with the decoding of the same bytes under
/// the same nesting limit are alike, structurally equal trees at the same end or the same error;
/// under any two limits, two results that both succeed hold equal trees and end alike.
pub proof fn lemma_decoding_deterministic(
    s: Seq<u8>,
    p: int,
    end: int,
    d1: nat,
    d2: nat,
    r1: Result<(SExp, usize), DecodeError>,
    r2: Result<(SExp, usize), DecodeError>,
)
    requires
        agrees(r1, parse_sexp(s, p, end, d1)),
        agrees(r2, parse_sexp(s, p, end, d2)),
    ensures
        d1 == d2 ==> match (r1, r2) {
            (Ok((e1, q1)), Ok((e2, q2))) => sexp_view(e1) == sexp_view(e2) && q1 == q2,
            (Err(x1), Err(x2)) => x1 == x2,
            _ => false,
        },
        match (r1, r2) {
            (Ok((e1, q1)), Ok((e2, q2))) => sexp_view(e1) == sexp_view(e2) && q1 == q2,
            _ => true,
        },
{
    if r1 is Ok && r2 is Ok {
        if d1 <= d2 {
            lemma_sexp_depth_monotone(s, p, end, d1, d2);
        } else {
            lemma_sexp_depth_monotone(s, p, end, d2, d1);
        }
    }
}

/// Four zero bytes at `p`.
pub open spec fn is_null_word(s: Seq<u8>, p: int) -> bool {
    s[p] == 0 && s[p + 1] == 0 && s[p + 2] == 0 && s[p + 3] == 0
}

proof fn lemma_null_word(s: Seq<u8>, p: int)
    requires
        is_null_word(s, p),
    ensures
        word_at(s, p) == 0,
{
    let (b0, b1, b2, b3) = (s[p], s[p + 1], s[p + 2], s[p + 3]);
    assert(((b0 as u32) | ((b1 as u32) << 8) | ((b2 as u32) << 16) | ((b3 as u32) << 24)) == 0)
        by (bit_vector)
        requires
            b0 == 0 && b1 == 0 && b2 == 0 && b3 == 0,
    ;
}

/// The nil expression decodes to the empty tree from its word alone.
pub proof fn lemma_nil_decodes(s: Seq<u8>, p: int, end: int, depth: nat)
    requires
        0 <= p,
        p + 4 <= end <= s.len(),
        is_null_word(s, p),
    ensures
        parse_sexp(s, p, end, depth) == Ok::<(Tree, int), DecodeError>((Tree::Nil, p + 4)),
{
    lemma_null_word(s, p);
    let w = word_at(s, p);
    assert(w & 63 == 0 && w >> 8 == 0 && w & 128 == 0) by (bit_vector)
        requires
            w == 0,
    ;
    assert(xt_of(0) == Some(XpressionTypes::XT_NULL));
    assert(parse_value(s, XpressionTypes::XT_NULL, p + 4, p + 4, depth) == Ok::<(Tree, int), DecodeError>((Tree::Nil, p + 4)));
}

/// A list node of one element whose value and tag are both nil decodes to that list.
pub proof fn lemma_nil_list_element(s: Seq<u8>, p: int, end: int, depth: nat)
    requires
        0 <= p,
        p + 12 <= end <= s.len(),
        depth > 0,
        s[p] == 21 && s[p + 1] == 8 && s[p + 2] == 0 && s[p + 3] == 0,
        is_null_word(s, p + 4),
        is_null_word(s, p + 8),
    ensures
        parse_sexp(s, p, end, depth) == Ok::<(Tree, int), DecodeError>(
            (Tree::List(seq![Item::Tagged(Tree::Nil, Tree::Nil)]), p + 12),
        ),
{
    let (b0, b1, b2, b3) = (s[p], s[p + 1], s[p + 2], s[p + 3]);
    let w = word_at(s, p);
    assert(w & 63 == 21 && w >> 8 == 8 && w & 128 == 0) by (bit_vector)
        requires
            w == ((b0 as u32) | ((b1 as u32) << 8) | ((b2 as u32) << 16) | ((b3 as u32) << 24)),
            b0 == 21 && b1 == 8 && b2 == 0 && b3 == 0,
    ;
    let d1 = (depth - 1) as nat;
    lemma_nil_decodes(s, p + 4, p + 12, d1);
    lemma_nil_decodes(s, p + 8, p + 12, d1);
    let it = Item::Tagged(Tree::Nil, Tree::Nil);
    assert(seq![it] + Seq::<Item>::empty() =~= seq![it]);
    assert(parse_list(s, p + 12, p + 12, depth) == Ok::<(Seq<Item>, int), DecodeError>((Seq::empty(), p + 12)));
    assert(parse_list(s, p + 4, p + 12, depth) == Ok::<(Seq<Item>, int), DecodeError>((seq![it], p + 12)));
    assert(xt_of(21) == Some(XpressionTypes::XT_LIST_TAG));
    assert(parse_value(s, XpressionTypes::XT_LIST_TAG, p + 4, p + 12, depth) == Ok::<(Tree, int), DecodeError>((Tree::List(seq![it]), p + 12)));
}

/// A nil node whose attribute is nil decodes to the nil value under the nil attribute.
pub proof fn lemma_nil_attribute(s: Seq<u8>, p: int, end: int, depth: nat)
    requires
        0 <= p,
        p + 8 <= end <= s.len(),
        depth > 0,
        s[p] == XT_HAS_ATTR && s[p + 1] == 4 && s[p + 2] == 0 && s[p + 3] == 0,
        is_null_word(s, p + 4),
    ensures
        parse_sexp(s, p, end, depth) == Ok::<(Tree, int), DecodeError>(
            (Tree::WithAttrib(Box::new(Tree::Nil), Box::new(Tree::Nil)), p + 8),
        ),
{
    let (b0, b1, b2, b3) = (s[p], s[p + 1], s[p + 2], s[p + 3]);
    let w = word_at(s, p);
    assert(w & 63 == 0 && w >> 8 == 4 && w & 128 != 0) by (bit_vector)
        requires
            w == ((b0 as u32) | ((b1 as u32) << 8) | ((b2 as u32) << 16) | ((b3 as u32) << 24)),
            b0 == 128 && b1 == 4 && b2 == 0 && b3 == 0,
    ;
    lemma_nil_decodes(s, p + 4, p + 8, (depth - 1) as nat);
    assert(xt_of(0) == Some(XpressionTypes::XT_NULL));
    assert(parse_value(s, XpressionTypes::XT_NULL, p + 8, p + 8, depth) == Ok::<(Tree, int), DecodeError>((Tree::Nil, p + 8)));
}

/// How deeply expressions may nest unless a reader is told otherwise.
pub const DEFAULT_MAX_DEPTH: u32 = 256;

/// A byte source that is read front to back.
pub trait ByteStream {
    /// All the bytes of the source.
    spec fn bytes(&self) -> Seq<u8>;

    /// How many bytes have been read.
    spec fn position(&self) -> int;

    /// How many levels of nesting an expression read from the source may have.
    spec fn depth_limit(&self) -> nat;
}

/// Reading frame headers and messages.
pub trait QAP1Decode: ByteStream {
    /// Reads a message, after `hd` where its header has been read already, else with its
    /// header.
    fn read_message(&mut self, hd: Option<FrameHeader>) -> (r: Result<Message, DecodeError>)
        requires
            0 <= old(self).position() <= old(self).bytes().len(),
        ensures
            final(self).bytes() == old(self).bytes(),
            final(self).depth_limit() == old(self).depth_limit(),
            0 <= final(self).position() <= final(self).bytes().len(),
            final(self).position() == parse_message(
                old(self).bytes(),
                old(self).position(),
                hd,
                old(self).depth_limit(),
            ).1,
            match (r, parse_message(old(self).bytes(), old(self).position(), hd, old(self).depth_limit()).0) {
                (Ok(m), Ok(v)) => message_view(m) == v,
                (Err(e1), Err(e2)) => e1 == e2,
                _ => false,
            },
    ;

    /// Reads a 16-byte frame header.
    fn read_header(&mut self) -> (r: Result<FrameHeader, DecodeError>)
        requires
            0 <= old(self).position() <= old(self).bytes().len(),
        ensures
            final(self).bytes() == old(self).bytes(),
            final(self).depth_limit() == old(self).depth_limit(),
            0 <= final(self).position() <= final(self).bytes().len(),
            r == parse_header(old(self).bytes(), old(self).position()),
            r is Ok ==> final(self).position() == old(self).position() + 16,
            r is Err ==> final(self).position() == old(self).position(),
    ;
}

/// Reading payloads and expressions.
pub trait DataDecode: ByteStream {
    /// Reads a payload: its type word, then an integer or an expression.
    fn read_datum(&mut self) -> (r: Result<Datum, DecodeError>)
        requires
            0 <= old(self).position() <= old(self).bytes().len(),
        ensures
            final(self).bytes() == old(self).bytes(),
            final(self).depth_limit() == old(self).depth_limit(),
            0 <= final(self).position() <= final(self).bytes().len(),
            match (r, parse_datum(old(self).bytes(), old(self).position(), old(self).depth_limit())) {
                (Ok(d), Ok((v, n))) => datum_view(d) == v && final(self).position() == n,
                (Err(e1), Err(e2)) => e1 == e2 && final(self).position() == old(self).position(),
                _ => false,
            },
    ;

    /// Reads one expression, which may run to the end of the source.
    fn read_sexp(&mut self) -> (r: Result<SExp, DecodeError>)
        requires
            0 <= old(self).position() <= old(self).bytes().len(),
        ensures
            final(self).bytes() == old(self).bytes(),
            final(self).depth_limit() == old(self).depth_limit(),
            0 <= final(self).position() <= final(self).bytes().len(),
            match (r, parse_sexp(old(self).bytes(), old(self).position(), old(self).bytes().len() as int, old(self).depth_limit())) {
                (Ok(e), Ok((t, n))) => sexp_view(e) == t && final(self).position() == n,
                (Err(e1), Err(e2)) => e1 == e2 && final(self).position() == old(self).position(),
                _ => false,
            },
    ;
}

/// An in-memory byte source.
pub struct ByteReader {
    data: Vec<u8>,
    pos: usize,
    max_depth: u32,
}

impl ByteStream for ByteReader {
    closed spec fn bytes(&self) -> Seq<u8> {
        self.data@
    }

    closed spec fn position(&self) -> int {
        self.pos as int
    }

    closed spec fn depth_limit(&self) -> nat {
        self.max_depth as nat
    }
}

impl ByteReader {
    /// A reader at the start of `data` that allows the default depth of nesting.
    pub fn new(data: Vec<u8>) -> (r: ByteReader)
        ensures
            r.bytes() == data@,
            r.position() == 0,
            r.depth_limit() == DEFAULT_MAX_DEPTH,
    {
        ByteReader { data, pos: 0, max_depth: DEFAULT_MAX_DEPTH }
    }

    /// A reader at the start of `data` that allows `max_depth` levels of nesting.
    pub fn with_max_depth(data: Vec<u8>, max_depth: u32) -> (r: ByteReader)
        ensures
            r.bytes() == data@,
            r.position() == 0,
            r.depth_limit() == max_depth,
    {
        ByteReader { data, pos: 0, max_depth }
    }

    /// Reads the next `n` bytes, or fails with nothing read where fewer are left.
    pub fn read_exact(&mut self, n: usize) -> (r: Result<Vec<u8>, DecodeError>)
        requires
            0 <= old(self).position() <= old(self).bytes().len(),
        ensures
            final(self).bytes() == old(self).bytes(),
            final(self).depth_limit() == old(self).depth_limit(),
            0 <= final(self).position() <= final(self).bytes().len(),
            old(self).position() + n <= old(self).bytes().len() ==> (r matches Ok(v) && v@
                == old(self).bytes().subrange(old(self).position(), old(self).position() + n)
                && final(self).position() == old(self).position() + n),
            old(self).position() + n > old(self).bytes().len() ==> (r == Err::<Vec<u8>, DecodeError>(
                DecodeError::Truncated,
            ) && final(self).position() == old(self).position()),
    {
        if n > self.data.len() - self.pos {
            return Err(DecodeError::Truncated);
        }
        let end: usize = self.pos + n;
        let v = slice_to_vec(&self.data.as_slice()[self.pos..end]);
        self.pos = end;
        Ok(v)
    }

    /// How many bytes have been read.
    pub fn pos(&self) -> (r: usize)
        ensures
            r == self.position(),
    {
        self.pos
    }
}

impl QAP1Decode for ByteReader {
    fn read_message(&mut self, hd: Option<FrameHeader>) -> (r: Result<Message, DecodeError>) {
        let (h, q) = match hd {
            Some(h) => (h, self.pos),
            None => match decode_header(self.data.as_slice(), self.pos) {
                Ok(hq) => hq,
                Err(e) => return Err(e),
            },
        };
        if h.len_high != 0 {
            self.pos = q;
            return Err(DecodeError::UnsupportedFraming);
        }
        if h.len as usize > self.data.len() - q {
            self.pos = q;
            return Err(DecodeError::Truncated);
        }
        let end: usize = q + h.len as usize;
        if h.len == 0 {
            self.pos = q;
            return Ok(Message { cmd: h.cmd, msg_id: h.msg_id, content: None });
        }
        let payload = &self.data.as_slice()[q..end];
        self.pos = end;
        match decode_datum(payload, 0, self.max_depth) {
            Ok((d, _)) => Ok(Message { cmd: h.cmd, msg_id: h.msg_id, content: Some(d) }),
            Err(e) => Err(e),
        }
    }

    fn read_header(&mut self) -> (r: Result<FrameHeader, DecodeError>) {
        match decode_header(self.data.as_slice(), self.pos) {
            Ok((h, q)) => {
                self.pos = q;
                Ok(h)
            },
            Err(e) => Err(e),
        }
    }
}

impl DataDecode for ByteReader {
    fn read_datum(&mut self) -> (r: Result<Datum, DecodeError>) {
        proof {
            if self.pos + 4 <= self.data@.len() {
                lemma_sexp_bounds(self.data@, self.pos + 4, self.data@.len() as int, self.max_depth as nat);
            }
        }
        match decode_datum(self.data.as_slice(), self.pos, self.max_depth) {
            Ok((d, q)) => {
                self.pos = q;
                Ok(d)
            },
            Err(e) => Err(e),
        }
    }

    fn read_sexp(&mut self) -> (r: Result<SExp, DecodeError>) {
        proof {
            lemma_sexp_bounds(self.data@, self.pos as int, self.data@.len() as int, self.max_depth as nat);
        }
        match decode_sexp(self.data.as_slice(), self.pos, self.data.len(), self.max_depth) {
            Ok((e, q)) => {
                self.pos = q;
                Ok(e)
            },
            Err(e) => Err(e),
        }
    }
}

} // verus!
