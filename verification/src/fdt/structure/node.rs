//! Nodes of the structure block.

use vstd::prelude::*;
use vstd::string::StringSliceAdditionalSpecFns;
use crate::fdt::encoding::{
    be_u32_at, find_zero, first_zero_from, lemma_first_zero_from_bounds, utf8_chars, utf8_to_string,
};
use crate::fdt::strings::{copy_bytes, Strings};
use crate::fdt::structure::buf_tools::{
    align4, has_token_at_start, starts_with_token, word_pos_from, ByteSliceWithTokens,
    FDT_BEGIN_NODE, FDT_END_NODE, FDT_PROP,
};
use crate::fdt::structure::property::{prop_parse, props_from, NodeProperty, PropertyIter, PropertyParseError};
use vstd::slice::slice_subrange;

verus! {

/// The errors that can occur when parsing a node.
#[derive(Debug, Eq, PartialEq, Clone, Copy)]
pub enum NodeStructureError {
    /// The buffer does not contain an FDT_BEGIN_NODE token.
    NoNodeBeginToken,
    /// The node is not closed by an FDT_END_NODE token.
    NoNodeEndToken,
    /// The buffer does not contain an FDT_END token at the end.
    NoStructEndToken,
    /// The FDT_BEGIN_NODE token is not followed by a NUL-terminated node name.
    NoNodeName,
    /// The node name is not valid UTF-8.
    InvalidNodeName,
    /// The root node's name is not empty.
    InvalidRootNodeName,
    /// The node contains an invalid property.
    InvalidProperty(PropertyParseError),
}

/// The outcome of one step of parsing the structure block.
pub enum StructParse {
    /// The parse cannot be carried out because it would index past the end of the buffer.
    OutOfBounds,
    /// The parse fails with the given error.
    Failed(NodeStructureError),
    /// The parse succeeded and reached the given position.
    Reached(int),
    /// A node was parsed: the number of bytes it uses, its name, the extent `[start, end)` of
    /// its properties and the end of its children, which start where the properties end.
    Node(int, Seq<char>, int, int, int),
}

/// Skip the properties starting at `i` of the node encoding `s`.
pub open spec fn parse_props(s: Seq<u8>, st: Seq<u8>, i: int) -> StructParse
    decreases s.len() - i,
{
    if i < 0 || i > s.len() {
        StructParse::OutOfBounds
    } else if !starts_with_token(s.subrange(i, s.len() as int), FDT_PROP) {
        StructParse::Reached(i)
    } else {
        match prop_parse(s.subrange(i, s.len() as int), st) {
            Err(e) => StructParse::Failed(NodeStructureError::InvalidProperty(e)),
            Ok((n, _)) => if n <= 0 || align4(i + n) > s.len() {
                StructParse::OutOfBounds
            } else {
                parse_props(s, st, align4(i + n))
            },
        }
    }
}

/// Skipping properties from `i` ends at or after `i` and within `s`.
pub proof fn lemma_parse_props_bounds(s: Seq<u8>, st: Seq<u8>, i: int, pe: int)
    requires
        parse_props(s, st, i) == StructParse::Reached(pe),
    ensures
        0 <= i <= pe <= s.len(),
    decreases s.len() - i,
{
    if 0 <= i <= s.len() && starts_with_token(s.subrange(i, s.len() as int), FDT_PROP) {
        match prop_parse(s.subrange(i, s.len() as int), st) {
            Ok((n, _)) => {
                if !(n <= 0 || align4(i + n) > s.len()) {
                    lemma_parse_props_bounds(s, st, align4(i + n), pe);
                }
            },
            Err(_) => {},
        }
    }
}

/// A property parses the same from a buffer cut off anywhere after its end.
pub proof fn lemma_prop_parse_prefix(t: Seq<u8>, st: Seq<u8>, m: int)
    requires
        prop_parse(t, st) is Ok,
        prop_parse(t, st)->Ok_0.0 <= m <= t.len(),
    ensures
        prop_parse(t.subrange(0, m), st) == prop_parse(t, st),
{
    let u = t.subrange(0, m);
    let vl = be_u32_at(t, 4) as int;
    assert(m >= 12 + vl);
    assert forall|k: int| 0 <= k < 12 implies u[k] == t[k] by {}
    assert(be_u32_at(u, 0) == be_u32_at(t, 0));
    assert(be_u32_at(u, 4) == be_u32_at(t, 4));
    assert(be_u32_at(u, 8) == be_u32_at(t, 8));
    assert(u.subrange(12, 12 + vl) =~= t.subrange(12, 12 + vl));
}

/// Rounding up to a multiple of four commutes with adding a multiple of four.
proof fn lemma_align4_shift(i: int, n: int)
    requires
        i % 4 == 0,
    ensures
        align4(i + n) == i + align4(n),
{
    assert((i + n) % 4 == n % 4);
}

/// The properties that iterating over a node's property part yields are the properties that
/// the node's own parse passes over, in order: each next property starts at the 4-byte-aligned
/// end of the one before it, and the iteration ends exactly where the node's properties end.
pub proof fn lemma_props_follow_node_parse(s: Seq<u8>, st: Seq<u8>, i: int, pe: int)
    requires
        0 <= i,
        i % 4 == 0,
        parse_props(s, st, i) == StructParse::Reached(pe),
    ensures
        i <= pe <= s.len(),
        pe == i ==> props_from(s.subrange(i, pe), st) == Seq::<(Seq<char>, Seq<u8>)>::empty(),
        pe > i ==> ({
            let t = s.subrange(i, s.len() as int);
            &&& prop_parse(t, st) is Ok
            &&& parse_props(s, st, align4(i + prop_parse(t, st)->Ok_0.0)) == StructParse::Reached(pe)
            &&& props_from(s.subrange(i, pe), st) == seq![prop_parse(t, st)->Ok_0.1] + props_from(
                s.subrange(align4(i + prop_parse(t, st)->Ok_0.0), pe),
                st,
            )
        }),
{
    lemma_parse_props_bounds(s, st, i, pe);
    let t = s.subrange(i, s.len() as int);
    let sub = s.subrange(i, pe);
    if pe == i {
        assert(!starts_with_token(sub, FDT_PROP));
        assert(props_from(sub, st) =~= Seq::<(Seq<char>, Seq<u8>)>::empty());
    } else {
        assert(starts_with_token(t, FDT_PROP));
        let (n, p) = prop_parse(t, st)->Ok_0;
        assert(n > 0 && align4(i + n) <= s.len());
        lemma_parse_props_bounds(s, st, align4(i + n), pe);
        lemma_align4_shift(i, n);
        assert(n >= 12);
        assert(sub =~= t.subrange(0, pe - i));
        lemma_prop_parse_prefix(t, st, pe - i);
        assert(prop_parse(sub, st) == Ok::<(int, (Seq<char>, Seq<u8>)), PropertyParseError>((n, p)));
        assert(align4(n) <= sub.len());
        assert(sub.subrange(align4(n), sub.len() as int) =~= s.subrange(align4(i + n), pe));
    }
}

/// Parse a node at the start of `s` (after skipping anything up to the first FDT_BEGIN_NODE
/// token).
#[verifier::opaque]
pub open spec fn parse_node(s: Seq<u8>, st: Seq<u8>) -> StructParse
    decreases s.len(), s.len() + 1,
{
    match word_pos_from(s, 0, FDT_BEGIN_NODE) {
        None => StructParse::Failed(NodeStructureError::NoNodeBeginToken),
        Some(b) => match first_zero_from(s, b + 4) {
            None => StructParse::Failed(NodeStructureError::NoNodeName),
            Some(k) => match utf8_chars(s.subrange(b + 4, k)) {
                None => StructParse::Failed(NodeStructureError::InvalidNodeName),
                Some(name) => match parse_props(s, st, align4(k + 1)) {
                    StructParse::Reached(pe) => if pe < 0 || pe > s.len() {
                        StructParse::OutOfBounds
                    } else {
                        match parse_children(s, st, pe) {
                            StructParse::Reached(ce) => if ce < 0 || ce > s.len() {
                                StructParse::OutOfBounds
                            } else if !starts_with_token(
                                s.subrange(ce, s.len() as int),
                                FDT_END_NODE,
                            ) {
                                StructParse::Failed(NodeStructureError::NoNodeEndToken)
                            } else {
                                StructParse::Node(ce + 4, name, align4(k + 1), pe, ce)
                            },
                            StructParse::Failed(e) => StructParse::Failed(e),
                            _ => StructParse::OutOfBounds,
                        }
                    },
                    StructParse::Failed(e) => StructParse::Failed(e),
                    _ => StructParse::OutOfBounds,
                },
            },
        },
    }
}

/// Parse the child nodes starting at `i` of the node encoding `s`.
pub open spec fn parse_children(s: Seq<u8>, st: Seq<u8>, i: int) -> StructParse
    decreases s.len(), s.len() - i,
{
    if i <= 0 || i > s.len() {
        StructParse::OutOfBounds
    } else if !starts_with_token(s.subrange(i, s.len() as int), FDT_BEGIN_NODE) {
        StructParse::Reached(i)
    } else {
        match parse_node(s.subrange(i, s.len() as int), st) {
            StructParse::Node(n, _, _, _, _) => if n <= 0 || i + n > s.len() {
                StructParse::OutOfBounds
            } else {
                parse_children(s, st, i + n)
            },
            StructParse::Failed(e) => StructParse::Failed(e),
            _ => StructParse::OutOfBounds,
        }
    }
}

} // verus!

verus! {

/// Whether the nodes encoded one after the other in `s` from `pos` reach exactly `end`.
pub open spec fn node_chain(s: Seq<u8>, st: Seq<u8>, pos: int, end: int) -> bool
    decreases end - pos,
{
    if pos == end {
        0 <= pos <= s.len()
    } else if pos < 0 || pos > end || end > s.len() {
        false
    } else {
        match parse_node(s.subrange(pos, s.len() as int), st) {
            StructParse::Node(n, _, _, _, _) => n > 0 && pos + n <= end && node_chain(
                s,
                st,
                pos + n,
                end,
            ),
            _ => false,
        }
    }
}

/// The nodes encoded one after the other in `s` from `pos` up to `end`, each as (name, start of
/// properties, end of properties, end of children), positions taken in `s`.
#[verifier::opaque]
pub open spec fn chain_nodes(s: Seq<u8>, st: Seq<u8>, pos: int, end: int) -> Seq<
    (Seq<char>, int, int, int),
>
    decreases end - pos,
{
    if pos < 0 || pos >= end || end > s.len() {
        seq![]
    } else {
        match parse_node(s.subrange(pos, s.len() as int), st) {
            StructParse::Node(n, name, pb, pe, ce) => if n > 0 && pos + n <= end {
                seq![(name, pos + pb, pos + pe, pos + ce)] + chain_nodes(s, st, pos + n, end)
            } else {
                seq![]
            },
            _ => seq![],
        }
    }
}

/// The children of a node parsed at `pos` of `s` form a chain of nodes.
pub proof fn lemma_children_chain(s: Seq<u8>, st: Seq<u8>, pos: int, i: int)
    requires
        0 <= pos <= s.len(),
        parse_children(s.subrange(pos, s.len() as int), st, i) is Reached,
    ensures
        node_chain(
            s,
            st,
            pos + i,
            pos + parse_children(s.subrange(pos, s.len() as int), st, i)->Reached_0,
        ),
    decreases s.len() - pos - i,
{
    reveal(parse_node);
    let u = s.subrange(pos, s.len() as int);
    let c = parse_children(u, st, i)->Reached_0;
    if starts_with_token(u.subrange(i, u.len() as int), FDT_BEGIN_NODE) {
        assert(u.subrange(i, u.len() as int) =~= s.subrange(pos + i, s.len() as int));
        let n = parse_node(u.subrange(i, u.len() as int), st)->Node_0;
        lemma_children_chain(s, st, pos, i + n);
        lemma_children_chain_bound(u, st, i + n);
    }
}

proof fn lemma_children_chain_bound(u: Seq<u8>, st: Seq<u8>, i: int)
    requires
        parse_children(u, st, i) is Reached,
    ensures
        i <= parse_children(u, st, i)->Reached_0 <= u.len(),
    decreases u.len() - i,
{
    reveal(parse_node);
    if starts_with_token(u.subrange(i, u.len() as int), FDT_BEGIN_NODE) {
        let n = parse_node(u.subrange(i, u.len() as int), st)->Node_0;
        lemma_children_chain_bound(u, st, i + n);
    }
}

/// Round `n` up to a multiple of four when the result stays within `len`.
fn align_within(n: usize, len: usize) -> (r: Option<usize>)
    requires
        n <= len,
    ensures
        match r {
            Some(a) => a == align4(n as int) && a <= len,
            None => align4(n as int) > len,
        },
{
    let rem: usize = n % 4;
    if rem == 0 {
        Some(n)
    } else if len - n >= 4 - rem {
        Some(n + (4 - rem))
    } else {
        None
    }
}

/// A single node inside the structure block, consisting of its name, its properties and any
/// number of child nodes.
#[derive(Debug, Eq, PartialEq)]
pub struct StructureNode {
    name: String,
    block: Vec<u8>,
    props_start: usize,
    props_end: usize,
    children_end: usize,
    strings: Strings,
}

impl View for StructureNode {
    type V = (Seq<char>, int, int, int);

    /// The node's name, the extent of its properties and the end of its children (which start
    /// where the properties end), positions taken in the structure block it was parsed from.
    closed spec fn view(&self) -> (Seq<char>, int, int, int) {
        (
            self.name@,
            self.props_start as int,
            self.props_end as int,
            self.children_end as int,
        )
    }
}

impl StructureNode {
    /// The structure block this node was parsed from.
    pub closed spec fn block_view(&self) -> Seq<u8> {
        self.block@
    }

    /// The strings block used to name the node's properties.
    pub closed spec fn strings_view(&self) -> Seq<u8> {
        self.strings@
    }

    #[verifier::type_invariant]
    spec fn inv(&self) -> bool {
        &&& self.props_start <= self.props_end <= self.children_end <= self.block@.len()
        &&& node_chain(
            self.block@,
            self.strings@,
            self.props_end as int,
            self.children_end as int,
        )
    }

    /// Parse a node at the start of `buf`; returns (bytes used, name, start of properties, end of
    /// properties, end of children).
    fn from_buffer(buf: &[u8], strings: &Strings) -> (r: Result<
        (usize, String, usize, usize, usize),
        NodeStructureError,
    >)
        requires
            !(parse_node(buf@, strings@) is OutOfBounds),
        ensures
            match r {
                Ok((n, name, pb, pe, ce)) => parse_node(buf@, strings@) == StructParse::Node(
                    n as int,
                    name@,
                    pb as int,
                    pe as int,
                    ce as int,
                ),
                Err(e) => parse_node(buf@, strings@) == StructParse::Failed(e),
            },
        decreases buf@.len(),
    {
        proof {
            reveal(parse_node);
        }
        let ghost s = buf@;
        let ghost st = strings@;
        let len: usize = buf.len();
        let b: usize = match buf.find_token(FDT_BEGIN_NODE) {
            Some(b) => b,
            None => {
                return Err(NodeStructureError::NoNodeBeginToken);
            },
        };
        proof {
            lemma_word_pos_bounds(s, 0, FDT_BEGIN_NODE);
        }
        let k: usize = match find_zero(buf, b + 4) {
            Some(k) => k,
            None => {
                return Err(NodeStructureError::NoNodeName);
            },
        };
        proof {
            lemma_first_zero_from_bounds(s, (b + 4) as int);
        }
        let name = match utf8_to_string(slice_subrange(buf, b + 4, k)) {
            Some(name) => name,
            None => {
                return Err(NodeStructureError::InvalidNodeName);
            },
        };
        let pb: usize = match align_within(k + 1, len) {
            Some(pb) => pb,
            None => {
                assert(false);
                return Err(NodeStructureError::NoNodeName);
            },
        };
        assert(!(parse_props(s, st, pb as int) is OutOfBounds));
        let mut i: usize = pb;
        while has_token_at_start(slice_subrange(buf, i, len), FDT_PROP)
            invariant
                s == buf@,
                st == strings@,
                len == s.len(),
                word_pos_from(s, 0, FDT_BEGIN_NODE) == Some(b as int),
                first_zero_from(s, b + 4) == Some(k as int),
                utf8_chars(s.subrange(b + 4, k as int)) == Some(name@),
                pb == align4(k + 1),
                b + 4 <= k < len,
                pb <= i <= len,
                parse_props(s, st, pb as int) == parse_props(s, st, i as int),
                !(parse_props(s, st, pb as int) is OutOfBounds),
            decreases len - i,
        {
            proof {
                reveal(parse_node);
            }
            let prop_buf = slice_subrange(buf, i, len);
            assert(prop_buf@ == s.subrange(i as int, s.len() as int));
            match NodeProperty::from_buffer(prop_buf, strings) {
                Err(e) => {
                    return Err(NodeStructureError::InvalidProperty(e));
                },
                Ok((n, _)) => {
                    match align_within(i + n, len) {
                        Some(next) => {
                            i = next;
                        },
                        None => {
                            assert(false);
                            return Err(NodeStructureError::NoNodeEndToken);
                        },
                    }
                },
            }
        }
        let pe: usize = i;
        assert(parse_props(s, st, pb as int) == StructParse::Reached(pe as int));
        assert(!(parse_children(s, st, pe as int) is OutOfBounds));
        while has_token_at_start(slice_subrange(buf, i, len), FDT_BEGIN_NODE)
            invariant
                s == buf@,
                st == strings@,
                len == s.len(),
                word_pos_from(s, 0, FDT_BEGIN_NODE) == Some(b as int),
                first_zero_from(s, b + 4) == Some(k as int),
                utf8_chars(s.subrange(b + 4, k as int)) == Some(name@),
                pb == align4(k + 1),
                b + 4 <= k < len,
                parse_props(s, st, pb as int) == StructParse::Reached(pe as int),
                0 < pe <= i <= len,
                parse_children(s, st, pe as int) == parse_children(s, st, i as int),
                !(parse_children(s, st, pe as int) is OutOfBounds),
            decreases len - i,
        {
            proof {
                reveal(parse_node);
            }
            let child = slice_subrange(buf, i, len);
            assert(child@ == s.subrange(i as int, s.len() as int));
            match Self::from_buffer(child, strings) {
                Err(e) => {
                    return Err(e);
                },
                Ok((n, _, _, _, _)) => {
                    if n > len - i {
                        assert(false);
                        return Err(NodeStructureError::NoNodeEndToken);
                    }
                    i = i + n;
                },
            }
        }
        let ce: usize = i;
        if !has_token_at_start(slice_subrange(buf, ce, len), FDT_END_NODE) {
            return Err(NodeStructureError::NoNodeEndToken);
        }
        Ok((ce + 4, name, pb, pe, ce))
    }
}

proof fn lemma_word_pos_bounds(s: Seq<u8>, i: int, w: u32)
    requires
        i >= 0,
    ensures
        word_pos_from(s, i, w) matches Some(p) ==> i <= p && p + 4 <= s.len(),
    decreases s.len() - i,
{
    if i + 4 <= s.len() && crate::fdt::encoding::be_u32_at(s, i) != w {
        lemma_word_pos_bounds(s, i + 4, w);
    }
}


proof fn lemma_props_monotone(s: Seq<u8>, st: Seq<u8>, i: int)
    requires
        parse_props(s, st, i) is Reached,
    ensures
        i <= parse_props(s, st, i)->Reached_0 <= s.len(),
    decreases s.len() - i,
{
    if starts_with_token(s.subrange(i, s.len() as int), FDT_PROP) {
        let n = prop_parse(s.subrange(i, s.len() as int), st)->Ok_0.0;
        lemma_props_monotone(s, st, align4(i + n));
    }
}

/// Facts about a node parsed at `pos` of `s`: its parts lie in order within `s` and its children
/// form a chain of nodes.
proof fn lemma_node_parts(s: Seq<u8>, st: Seq<u8>, pos: int)
    requires
        0 <= pos <= s.len(),
        parse_node(s.subrange(pos, s.len() as int), st) is Node,
    ensures
        ({
            let r = parse_node(s.subrange(pos, s.len() as int), st);
            &&& 0 <= r->Node_2 <= r->Node_3 <= r->Node_4
            &&& r->Node_4 + 4 == r->Node_0
            &&& r->Node_0 <= s.len() - pos
            &&& node_chain(s, st, pos + r->Node_3, pos + r->Node_4)
        }),
{
    reveal(parse_node);
    let u = s.subrange(pos, s.len() as int);
    let b = word_pos_from(u, 0, FDT_BEGIN_NODE)->Some_0;
    lemma_word_pos_bounds(u, 0, FDT_BEGIN_NODE);
    let k = first_zero_from(u, b + 4)->Some_0;
    crate::fdt::encoding::lemma_first_zero_from_bounds(u, b + 4);
    lemma_props_monotone(u, st, align4(k + 1));
    let pe = parse_props(u, st, align4(k + 1))->Reached_0;
    lemma_children_chain_bound(u, st, pe);
    lemma_children_chain(s, st, pos, pe);
}

impl StructureNode {
    /// The name of the node.
    pub fn name(&self) -> (r: &str)
        ensures
            r@ == self@.0,
    {
        self.name.as_str()
    }

    /// Interpret a buffer as the root node of the device tree; its name must be empty.
    pub fn from_buffer_as_root(buf: &[u8], strings: &Strings) -> (r: Result<
        StructureNode,
        NodeStructureError,
    >)
        requires
            !(parse_node(buf@, strings@) is OutOfBounds),
        ensures
            match parse_node(buf@, strings@) {
                StructParse::Node(_, name, pb, pe, ce) => if name.len() == 0 {
                    r matches Ok(node) && node@ == (name, pb, pe, ce) && node.block_view()
                        == buf@ && node.strings_view() == strings@
                } else {
                    r == Err::<StructureNode, NodeStructureError>(
                        NodeStructureError::InvalidRootNodeName,
                    )
                },
                StructParse::Failed(e) => r == Err::<StructureNode, NodeStructureError>(e),
                _ => false,
            },
    {
        let (_n, name, pb, pe, ce) = match Self::from_buffer(buf, strings) {
            Ok(res) => res,
            Err(e) => {
                return Err(e);
            },
        };
        if !name.as_str().is_empty() {
            return Err(NodeStructureError::InvalidRootNodeName);
        }
        proof {
            assert(buf@.subrange(0, buf@.len() as int) =~= buf@);
            lemma_node_parts(buf@, strings@, 0);
        }
        Ok(
            StructureNode {
                name,
                block: copy_bytes(buf),
                props_start: pb,
                props_end: pe,
                children_end: ce,
                strings: strings.clone(),
            },
        )
    }

    /// The properties of this node.
    pub fn props(&self) -> (r: PropertyIter)
        ensures
            r@ == props_from(
                self.block_view().subrange(self@.1, self@.2),
                self.strings_view(),
            ),
    {
        proof {
            use_type_invariant(self);
        }
        let part = slice_subrange(self.block.as_slice(), self.props_start, self.props_end);
        PropertyIter::new(part, self.strings.clone())
    }

    /// The child nodes of this node.
    pub fn children(&self) -> (r: NodeIter)
        ensures
            r@ == chain_nodes(self.block_view(), self.strings_view(), self@.2, self@.3),
            r.range() == (self@.2, self@.3),
            r.block_view() == self.block_view(),
            r.strings_view() == self.strings_view(),
    {
        proof {
            use_type_invariant(self);
        }
        NodeIter {
            block: copy_bytes(self.block.as_slice()),
            pos: self.props_end,
            end: self.children_end,
            strings: self.strings.clone(),
        }
    }
}

/// The first of `nodes` whose name has the UTF-8 bytes `part`.
pub open spec fn first_named(nodes: Seq<(Seq<char>, int, int, int)>, part: Seq<u8>) -> Option<
    (Seq<char>, int, int, int),
>
    decreases nodes.len(),
{
    if nodes.len() == 0 {
        None
    } else if vstd::utf8::encode_utf8(nodes[0].0) == part {
        Some(nodes[0])
    } else {
        first_named(nodes.drop_first(), part)
    }
}

/// The node reached by following the path components `parts`, starting from `nodes`, where the
/// children of a node are looked up in the structure block `s`.
pub open spec fn lookup_path(
    s: Seq<u8>,
    st: Seq<u8>,
    nodes: Seq<(Seq<char>, int, int, int)>,
    parts: Seq<Seq<u8>>,
) -> Option<(Seq<char>, int, int, int)>
    decreases parts.len(),
{
    if parts.len() == 0 {
        None
    } else {
        match first_named(nodes, parts[0]) {
            None => None,
            Some(v) => if parts.len() == 1 {
                Some(v)
            } else {
                lookup_path(s, st, chain_nodes(s, st, v.2, v.3), parts.drop_first())
            },
        }
    }
}

/// The position of the first byte equal to `v` at or after `i`.
pub open spec fn first_byte_from(s: Seq<u8>, i: int, v: u8) -> Option<int>
    decreases s.len() - i,
{
    if i < 0 || i >= s.len() {
        None
    } else if s[i] == v {
        Some(i)
    } else {
        first_byte_from(s, i + 1, v)
    }
}

/// The position of the first byte at or after `i` that is not a `/`.
pub open spec fn skip_slashes(b: Seq<u8>, i: int) -> int
    decreases b.len() - i,
{
    if 0 <= i < b.len() && b[i] == 0x2f {
        skip_slashes(b, i + 1)
    } else {
        i
    }
}

/// The parts of `b` from `i` on that lie between `/` characters.
pub open spec fn split_slashes_from(b: Seq<u8>, i: int) -> Seq<Seq<u8>>
    decreases b.len() - i,
{
    match first_byte_from(b, i, 0x2f) {
        None => seq![b.subrange(i, b.len() as int)],
        Some(j) => if i <= j < b.len() {
            seq![b.subrange(i, j)] + split_slashes_from(b, j + 1)
        } else {
            seq![]
        },
    }
}

/// The components of a node path such as `/cpus/cpu@0`: leading `/` characters are dropped and
/// the rest is split at each `/`.
pub open spec fn path_components(path: Seq<u8>) -> Seq<Seq<u8>> {
    split_slashes_from(path, skip_slashes(path, 0))
}

proof fn lemma_first_byte_bounds(s: Seq<u8>, i: int, v: u8)
    ensures
        first_byte_from(s, i, v) matches Some(k) ==> (0 <= i <= k < s.len() && s[k] == v),
    decreases s.len() - i,
{
    if 0 <= i < s.len() && s[i] != v {
        lemma_first_byte_bounds(s, i + 1, v);
    }
}

/// Split a node path into its components.
fn split_path(b: &[u8]) -> (r: Vec<Vec<u8>>)
    ensures
        r@.len() == path_components(b@).len(),
        forall|k: int| 0 <= k < r@.len() ==> #[trigger] r@[k]@ == path_components(b@)[k],
{
    let len: usize = b.len();
    let mut i: usize = 0;
    while i < len && b[i] == 0x2f
        invariant
            i <= len == b@.len(),
            skip_slashes(b@, 0) == skip_slashes(b@, i as int),
        decreases len - i,
    {
        i = i + 1;
    }
    let ghost all = path_components(b@);
    let mut parts: Vec<Vec<u8>> = Vec::new();
    let mut seg: usize = i;
    proof {
        assert(parts@.map_values(|p: Vec<u8>| p@) =~= Seq::<Seq<u8>>::empty());
        assert(all =~= parts@.map_values(|p: Vec<u8>| p@) + split_slashes_from(b@, seg as int));
    }
    loop
        invariant
            seg <= len == b@.len(),
            all == path_components(b@),
            all == parts@.map_values(|p: Vec<u8>| p@) + split_slashes_from(b@, seg as int),
        decreases len - seg,
    {
        let ghost rest = split_slashes_from(b@, seg as int);
        let mut j: usize = seg;
        while j < len && b[j] != 0x2f
            invariant
                seg <= j <= len == b@.len(),
                first_byte_from(b@, seg as int, 0x2f) == first_byte_from(b@, j as int, 0x2f),
            decreases len - j,
        {
            j = j + 1;
        }
        let piece = crate::fdt::strings::copy_bytes(slice_subrange(b, seg, j));
        let ghost before = parts@.map_values(|p: Vec<u8>| p@);
        parts.push(piece);
        proof {
            assert(parts@.map_values(|p: Vec<u8>| p@) =~= before.push(b@.subrange(seg as int, j as int)));
        }
        if j == len {
            proof {
                assert(rest =~= seq![b@.subrange(seg as int, len as int)]);
                assert(all =~= parts@.map_values(|p: Vec<u8>| p@));
            }
            return parts;
        }
        proof {
            assert(rest =~= seq![b@.subrange(seg as int, j as int)] + split_slashes_from(b@, j + 1));
            assert(all =~= parts@.map_values(|p: Vec<u8>| p@) + split_slashes_from(b@, j + 1));
        }
        seg = j + 1;
    }
}

/// An iterator over the nodes encoded one after the other in a part of the structure block.
#[derive(Debug, Eq, PartialEq)]
pub struct NodeIter {
    block: Vec<u8>,
    pos: usize,
    end: usize,
    strings: Strings,
}

impl View for NodeIter {
    type V = Seq<(Seq<char>, int, int, int)>;

    /// The nodes that are still to be iterated.
    closed spec fn view(&self) -> Seq<(Seq<char>, int, int, int)> {
        chain_nodes(self.block@, self.strings@, self.pos as int, self.end as int)
    }
}

impl Clone for NodeIter {
    fn clone(&self) -> (r: NodeIter)
        ensures
            r@ == self@,
            r.block_view() == self.block_view(),
            r.strings_view() == self.strings_view(),
            r.range() == self.range(),
    {
        proof {
            use_type_invariant(self);
        }
        NodeIter {
            block: copy_bytes(self.block.as_slice()),
            pos: self.pos,
            end: self.end,
            strings: self.strings.clone(),
        }
    }
}

impl NodeIter {
    /// The structure block the nodes are read from.
    pub closed spec fn block_view(&self) -> Seq<u8> {
        self.block@
    }

    /// The strings block used to name properties.
    pub closed spec fn strings_view(&self) -> Seq<u8> {
        self.strings@
    }

    /// Where iteration continues and where it ends.
    pub closed spec fn range(&self) -> (int, int) {
        (self.pos as int, self.end as int)
    }

    #[verifier::type_invariant]
    spec fn inv(&self) -> bool {
        &&& self.pos <= self.end <= self.block@.len()
        &&& node_chain(self.block@, self.strings@, self.pos as int, self.end as int)
    }
}


impl NodeIter {
    /// Yield the next node.
    pub fn next(&mut self) -> (r: Option<StructureNode>)
        ensures
            old(self)@.len() == 0 ==> r is None && final(self)@.len() == 0,
            old(self)@.len() > 0 ==> (r matches Some(node) && node@ == old(self)@[0]
                && node.block_view() == old(self).block_view() && node.strings_view() == old(
                self,
            ).strings_view() && final(self)@ == old(self)@.drop_first()),
            final(self).block_view() == old(self).block_view(),
            final(self).strings_view() == old(self).strings_view(),
    {
        proof {
            use_type_invariant(&*self);
        }
        if self.pos >= self.end {
            proof {
                reveal_with_fuel(chain_nodes, 1);
            }
            return None;
        }
        let len: usize = self.block.len();
        let ghost s = self.block@;
        let ghost st = self.strings@;
        let part = slice_subrange(self.block.as_slice(), self.pos, len);
        match StructureNode::from_buffer(part, &self.strings) {
            Err(_) => {
                assert(false);
                None
            },
            Ok((n, name, pb, pe, ce)) => {
                let pos: usize = self.pos;
                proof {
                    lemma_node_parts(s, st, pos as int);
                }
                let node = StructureNode {
                    name,
                    block: copy_bytes(self.block.as_slice()),
                    props_start: pos + pb,
                    props_end: pos + pe,
                    children_end: pos + ce,
                    strings: self.strings.clone(),
                };
                self.pos = pos + n;
                proof {
                    reveal_with_fuel(chain_nodes, 2);
                    assert(old(self)@.drop_first() =~= self@);
                }
                Some(node)
            },
        }
    }

    /// Advance to the first node whose name has the UTF-8 bytes `part` and yield it.
    fn find_named(&mut self, part: &[u8]) -> (r: Option<StructureNode>)
        ensures
            match first_named(old(self)@, part@) {
                Some(v) => r matches Some(node) && node@ == v && node.block_view() == old(
                    self,
                ).block_view() && node.strings_view() == old(self).strings_view(),
                None => r is None,
            },
    {
        let ghost target = first_named(self@, part@);
        let ghost s = self.block_view();
        let ghost st = self.strings_view();
        loop
            invariant
                target == first_named(self@, part@),
                target == first_named(old(self)@, part@),
                s == self.block_view(),
                st == self.strings_view(),
                s == old(self).block_view(),
                st == old(self).strings_view(),
            decreases self@.len(),
        {
            match self.next() {
                None => {
                    return None;
                },
                Some(node) => {
                    let same = crate::fdt::encoding::bytes_equal(
                        node.name.as_str().as_bytes(),
                        part,
                    );
                    if same {
                        return Some(node);
                    }
                },
            }
        }
    }
}

impl NodeIter {
    /// Search for the node located at `path`, such as `/cpus/cpu@0`.
    ///
    /// The path starts with a `/` that denotes the node whose children this iterator yields and
    /// `/` separates the levels of child nodes below it.
    #[verifier::rlimit(60)]
    pub fn find_by_path(&mut self, path: &str) -> (r: Option<StructureNode>)
        ensures
            final(self)@ == old(self)@,
            final(self).range() == old(self).range(),
            match lookup_path(
                old(self).block_view(),
                old(self).strings_view(),
                old(self)@,
                path_components(path.spec_bytes()),
            ) {
                Some(v) => r matches Some(node) && node@ == v && node.block_view() == old(
                    self,
                ).block_view() && node.strings_view() == old(self).strings_view(),
                None => r is None,
            },
    {
        let parts = split_path(path.as_bytes());
        let ghost ps = path_components(path.spec_bytes());
        let ghost s = self.block_view();
        let ghost st = self.strings_view();
        let mut current = self.clone();
        let mut j: usize = 0;
        proof {
            assert(ps.subrange(0, ps.len() as int) =~= ps);
        }
        while j < parts.len()
            invariant
                parts@.len() == ps.len(),
                forall|k: int| 0 <= k < parts@.len() ==> #[trigger] parts@[k]@ == ps[k],
                j <= parts@.len(),
                s == current.block_view(),
                st == current.strings_view(),
                s == self.block_view(),
                st == self.strings_view(),
                *self == *old(self),
                ps == path_components(path.spec_bytes()),
                lookup_path(s, st, self@, ps) == lookup_path(
                    s,
                    st,
                    current@,
                    ps.subrange(j as int, ps.len() as int),
                ),
            decreases parts@.len() - j,
        {
            let ghost rest = ps.subrange(j as int, ps.len() as int);
            let ghost nodes = current@;
            assert(rest[0] == parts@[j as int]@);
            let found = current.find_named(parts[j].as_slice());
            match found {
                None => {
                    assert(lookup_path(s, st, nodes, rest) is None);
                    return None;
                },
                Some(node) => {
                    if j + 1 == parts.len() {
                        assert(lookup_path(s, st, nodes, rest) == Some(node@));
                        return Some(node);
                    }
                    assert(rest.drop_first() =~= ps.subrange(j + 1, ps.len() as int));
                    assert(lookup_path(s, st, nodes, rest) == lookup_path(
                        s,
                        st,
                        chain_nodes(s, st, node@.2, node@.3),
                        rest.drop_first(),
                    ));
                    current = node.children();
                },
            }
            j = j + 1;
        }
        proof {
            assert(ps.subrange(j as int, ps.len() as int) =~= Seq::<Seq<u8>>::empty());
        }
        None
    }
}

} // verus!
