//! The parser: turns tokens into a tree of nodes.
//!
//! Its meaning is `parse`, a function of the token sequence. A body is a
//! `{`, then items up to the matching `}`. When an item inside a body cannot
//! start at a token (a character literal, a bracket, a comma, `else`, `with`,
//! an error token), the parser makes no progress there and never returns;
//! `parse_stalls` names those inputs.
use vstd::prelude::*;
use crate::lexer::{Span, Token, TokenKind, SpecToken, SpecTokenKind, tokens_view};
use crate::runtime::{Stack, SpecValue, ValueType};

verus! {

#[derive(Debug)]
pub enum NodeKind {
    Loop { body: Vec<Node> },
    If { body: Vec<Node> },
    Function { name: String, params: Vec<ValueType>, body: Vec<Node> },
    With { body: Vec<Node> },
    Break,
    Instruction(String),
    String(String),
    Number(String),
    Int(i32),
    Bool(bool),
    Stack(Stack),
    Error(String),
}

#[derive(Debug)]
pub struct Node {
    pub kind: NodeKind,
    pub pos: Span,
}

pub enum SpecNodeKind {
    Loop(Seq<SpecNode>),
    If(Seq<SpecNode>),
    Function(Seq<char>, Seq<ValueType>, Seq<SpecNode>),
    With(Seq<SpecNode>),
    Break,
    Instruction(Seq<char>),
    String(Seq<char>),
    Number(Seq<char>),
    Int(int),
    Bool(bool),
    Stack(Seq<SpecValue>),
    Error(Seq<char>),
}

pub struct SpecNode {
    pub kind: SpecNodeKind,
    pub start: nat,
    pub end: nat,
}

pub open spec fn node_kind_view(k: NodeKind) -> SpecNodeKind
    decreases k,
{
    match k {
        NodeKind::Loop { body } => SpecNodeKind::Loop(nodes_view(body@)),
        NodeKind::If { body } => SpecNodeKind::If(nodes_view(body@)),
        NodeKind::Function { name, params, body } => SpecNodeKind::Function(
            name@,
            params@,
            nodes_view(body@),
        ),
        NodeKind::With { body } => SpecNodeKind::With(nodes_view(body@)),
        NodeKind::Break => SpecNodeKind::Break,
        NodeKind::Instruction(s) => SpecNodeKind::Instruction(s@),
        NodeKind::String(s) => SpecNodeKind::String(s@),
        NodeKind::Number(s) => SpecNodeKind::Number(s@),
        NodeKind::Int(v) => SpecNodeKind::Int(v as int),
        NodeKind::Bool(b) => SpecNodeKind::Bool(b),
        NodeKind::Stack(st) => SpecNodeKind::Stack(st@),
        NodeKind::Error(s) => SpecNodeKind::Error(s@),
    }
}

pub open spec fn node_view(n: Node) -> SpecNode
    decreases n,
{
    SpecNode { kind: node_kind_view(n.kind), start: n.pos.start as nat, end: n.pos.end as nat }
}

pub open spec fn nodes_view(ns: Seq<Node>) -> Seq<SpecNode>
    decreases ns,
{
    if ns.len() == 0 {
        Seq::empty()
    } else {
        nodes_view(ns.drop_last()).push(node_view(ns.last()))
    }
}

impl View for Node {
    type V = SpecNode;

    open spec fn view(&self) -> SpecNode {
        node_view(*self)
    }
}

pub proof fn lemma_nodes_view(ns: Seq<Node>)
    ensures
        nodes_view(ns).len() == ns.len(),
        forall|i: int| 0 <= i < ns.len() ==> #[trigger] nodes_view(ns)[i] == ns[i]@,
    decreases ns.len(),
{
    if ns.len() > 0 {
        lemma_nodes_view(ns.drop_last());
    }
}

pub proof fn lemma_nodes_view_push(ns: Seq<Node>, n: Node)
    ensures
        nodes_view(ns.push(n)) == nodes_view(ns).push(n@),
{
    assert(ns.push(n).drop_last() =~= ns);
}

pub proof fn lemma_nodes_view_concat(a: Seq<Node>, b: Seq<Node>)
    ensures
        nodes_view(a + b) == nodes_view(a) + nodes_view(b),
    decreases b.len(),
{
    if b.len() == 0 {
        assert(a + b =~= a);
        assert(nodes_view(b) =~= Seq::<SpecNode>::empty());
        assert(nodes_view(a) + nodes_view(b) =~= nodes_view(a));
    } else {
        assert((a + b).drop_last() =~= a + b.drop_last());
        lemma_nodes_view_concat(a, b.drop_last());
        assert((a + b).last() == b.last());
        assert(nodes_view(a + b) == nodes_view(a + b.drop_last()).push(b.last()@));
        assert(nodes_view(a) + nodes_view(b) =~= (nodes_view(a) + nodes_view(b.drop_last())).push(
            b.last()@,
        ));
    }
}

fn copy_params(ps: &Vec<ValueType>) -> (r: Vec<ValueType>)
    ensures
        r@ == ps@,
{
    let mut r: Vec<ValueType> = Vec::new();
    let mut i: usize = 0;
    while i < ps.len()
        invariant
            i <= ps@.len(),
            r@ == ps@.take(i as int),
        decreases ps@.len() - i,
    {
        assert(ps@.take(i + 1) =~= ps@.take(i as int).push(ps@[i as int]));
        r.push(ps[i]);
        i = i + 1;
    }
    assert(ps@.take(ps@.len() as int) =~= ps@);
    r
}

impl Node {
    /// A copy of the node and everything below it.
    pub fn copy(&self) -> (r: Node)
        ensures
            r@ == self@,
        decreases self,
    {
        let kind = match &self.kind {
            NodeKind::Loop { body } => NodeKind::Loop { body: copy_nodes(body) },
            NodeKind::If { body } => NodeKind::If { body: copy_nodes(body) },
            NodeKind::Function { name, params, body } => NodeKind::Function {
                name: name.clone(),
                params: copy_params(params),
                body: copy_nodes(body),
            },
            NodeKind::With { body } => NodeKind::With { body: copy_nodes(body) },
            NodeKind::Break => NodeKind::Break,
            NodeKind::Instruction(s) => NodeKind::Instruction(s.clone()),
            NodeKind::String(s) => NodeKind::String(s.clone()),
            NodeKind::Number(s) => NodeKind::Number(s.clone()),
            NodeKind::Int(v) => NodeKind::Int(*v),
            NodeKind::Bool(b) => NodeKind::Bool(*b),
            NodeKind::Stack(st) => NodeKind::Stack(st.copy()),
            NodeKind::Error(s) => NodeKind::Error(s.clone()),
        };
        Node { kind, pos: self.pos }
    }
}

/// A copy of a sequence of nodes.
pub fn copy_nodes(ns: &Vec<Node>) -> (r: Vec<Node>)
    ensures
        nodes_view(r@) == nodes_view(ns@),
    decreases ns,
{
    let mut out: Vec<Node> = Vec::new();
    let mut i: usize = 0;
    while i < ns.len()
        invariant
            i <= ns@.len(),
            nodes_view(out@) == nodes_view(ns@.take(i as int)),
        decreases ns@.len() - i,
    {
        assert(decreases_to!(ns => ns@[i as int]));
        let n = ns[i].copy();
        proof {
            lemma_nodes_view_push(out@, n);
            lemma_nodes_view_push(ns@.take(i as int), ns@[i as int]);
            assert(ns@.take(i + 1) =~= ns@.take(i as int).push(ns@[i as int]));
        }
        out.push(n);
        i = i + 1;
    }
    assert(ns@.take(ns@.len() as int) =~= ns@);
    out
}

// ---------------------------------------------------------------------------
// The meaning of the parser
// ---------------------------------------------------------------------------

pub open spec fn msg_expected_open() -> Seq<char> {
    "Expected '{'"@
}

pub open spec fn msg_expected_close() -> Seq<char> {
    "Expected closing '}'"@
}

pub open spec fn msg_unexpected() -> Seq<char> {
    "Unexpected token"@
}

/// A node spanning from the start of token `a` to the end of token `b`.
pub open spec fn node_over(toks: Seq<SpecToken>, kind: SpecNodeKind, a: int, b: int) -> SpecNode {
    SpecNode { kind, start: toks[a].start, end: toks[b].end }
}

/// What an attempt at one item does: whether it applied, the nodes it adds,
/// the token position after it, and whether it never returns.
pub struct ItemResult {
    pub matched: bool,
    pub emitted: Seq<SpecNode>,
    pub next: int,
    pub stalls: bool,
}

/// What parsing a body does: the body's nodes when it was well formed, the
/// nodes it adds to the output besides, where it ends, whether it never returns.
pub struct BodyResult {
    pub body: Option<Seq<SpecNode>>,
    pub emitted: Seq<SpecNode>,
    pub next: int,
    pub stalls: bool,
}

/// The items of a body up to its closing `}`: whether it was found, the
/// items' nodes, where the scan ended, whether it never returns.
pub struct ItemsResult {
    pub closed: bool,
    pub emitted: Seq<SpecNode>,
    pub next: int,
    pub stalls: bool,
}

pub open spec fn no_item(c: int) -> ItemResult {
    ItemResult { matched: false, emitted: Seq::empty(), next: c, stalls: false }
}

pub open spec fn stalled_item(c: int) -> ItemResult {
    ItemResult { matched: true, emitted: Seq::empty(), next: c, stalls: true }
}

pub open spec fn is_kind(t: SpecToken, k: SpecTokenKind) -> bool {
    t.kind == k
}

/// A block-introducing item (`loop` or `if`) whose keyword is at `c`.
pub open spec fn block_item(toks: Seq<SpecToken>, c: int, is_loop: bool) -> ItemResult
    decreases toks.len() - c, 0int,
{
    if c < 0 || c >= toks.len() {
        no_item(c)
    } else {
        let b = parse_body(toks, c + 1);
        if b.stalls {
            stalled_item(c)
        } else {
            match b.body {
                Some(body) => {
                    let kind = if is_loop {
                        SpecNodeKind::Loop(body)
                    } else {
                        SpecNodeKind::If(body)
                    };
                    ItemResult {
                        matched: true,
                        emitted: b.emitted + seq![node_over(toks, kind, c, b.next - 1)],
                        next: b.next,
                        stalls: false,
                    }
                },
                None => ItemResult { matched: true, emitted: b.emitted, next: b.next, stalls: false },
            }
        }
    }
}

/// One item at token position `c`, trying in order: literal, `break`,
/// `loop`, `if`, function definition, instruction.
pub open spec fn parse_item(toks: Seq<SpecToken>, c: int) -> ItemResult
    decreases toks.len() - c, 1int,
{
    if c < 0 || c >= toks.len() {
        no_item(c)
    } else {
        let t = toks[c];
        let one = |k: SpecNodeKind|
            ItemResult {
                matched: true,
                emitted: seq![node_over(toks, k, c, c)],
                next: c + 1,
                stalls: false,
            };
        match t.kind {
            SpecTokenKind::Number(s) => one(SpecNodeKind::Number(s)),
            SpecTokenKind::Int(n) => one(SpecNodeKind::Int(n)),
            SpecTokenKind::String(s) => one(SpecNodeKind::String(s)),
            SpecTokenKind::Bool(b) => one(SpecNodeKind::Bool(b)),
            SpecTokenKind::KwBreak => one(SpecNodeKind::Break),
            SpecTokenKind::KwLoop => block_item(toks, c, true),
            SpecTokenKind::KwIf => block_item(toks, c, false),
            SpecTokenKind::Symbol(name) => {
                if c + 2 < toks.len() && is_kind(toks[c + 1], SpecTokenKind::LParen) && is_kind(
                    toks[c + 2],
                    SpecTokenKind::RParen,
                ) {
                    let b = parse_body(toks, c + 3);
                    if b.stalls {
                        stalled_item(c)
                    } else {
                        match b.body {
                            Some(body) => ItemResult {
                                matched: true,
                                emitted: b.emitted + seq![
                                    node_over(
                                        toks,
                                        SpecNodeKind::Function(name, Seq::empty(), body),
                                        c,
                                        b.next - 1,
                                    ),
                                ],
                                next: b.next,
                                stalls: false,
                            },
                            None => ItemResult {
                                matched: true,
                                emitted: b.emitted,
                                next: b.next,
                                stalls: false,
                            },
                        }
                    }
                } else {
                    one(SpecNodeKind::Instruction(name))
                }
            },
            _ => no_item(c),
        }
    }
}

/// A body whose `{` should be at token position `b`.
pub open spec fn parse_body(toks: Seq<SpecToken>, b: int) -> BodyResult
    decreases toks.len() - b, 2int,
{
    if b < 1 || b > toks.len() {
        BodyResult { body: None, emitted: Seq::empty(), next: b, stalls: false }
    } else if b == toks.len() || !is_kind(toks[b], SpecTokenKind::LCurly) {
        BodyResult {
            body: None,
            emitted: seq![node_over(toks, SpecNodeKind::Error(msg_expected_open()), b - 1, b - 1)],
            next: b,
            stalls: false,
        }
    } else if b + 1 < toks.len() && is_kind(toks[b + 1], SpecTokenKind::RCurly) {
        BodyResult { body: Some(Seq::empty()), emitted: Seq::empty(), next: b + 2, stalls: false }
    } else {
        let r = parse_items(toks, b + 1);
        if r.stalls {
            BodyResult { body: None, emitted: Seq::empty(), next: b, stalls: true }
        } else if r.closed {
            BodyResult { body: Some(r.emitted), emitted: Seq::empty(), next: r.next, stalls: false }
        } else {
            BodyResult {
                body: None,
                emitted: r.emitted + seq![
                    node_over(toks, SpecNodeKind::Error(msg_expected_close()), r.next - 1, r.next - 1),
                ],
                next: r.next,
                stalls: false,
            }
        }
    }
}

/// The items of a body from token position `c` to its closing `}`.
pub open spec fn parse_items(toks: Seq<SpecToken>, c: int) -> ItemsResult
    decreases toks.len() - c, 3int,
{
    if c < 1 || c > toks.len() {
        ItemsResult { closed: false, emitted: Seq::empty(), next: c, stalls: true }
    } else if c == toks.len() {
        ItemsResult { closed: false, emitted: Seq::empty(), next: c, stalls: false }
    } else if is_kind(toks[c], SpecTokenKind::RCurly) {
        ItemsResult { closed: true, emitted: Seq::empty(), next: c + 1, stalls: false }
    } else {
        let r = parse_item(toks, c);
        if r.stalls || !r.matched || r.next <= c || r.next > toks.len() {
            ItemsResult { closed: false, emitted: Seq::empty(), next: c, stalls: true }
        } else {
            let rest = parse_items(toks, r.next);
            ItemsResult {
                closed: rest.closed,
                emitted: r.emitted + rest.emitted,
                next: rest.next,
                stalls: rest.stalls,
            }
        }
    }
}

/// The nodes of the top level from token position `c`, and whether the
/// parser never returns.
pub open spec fn parse_top(toks: Seq<SpecToken>, c: int) -> (Seq<SpecNode>, bool)
    decreases toks.len() - c,
{
    if c < 0 || c >= toks.len() {
        (Seq::empty(), false)
    } else {
        let r = parse_item(toks, c);
        if r.stalls {
            (Seq::empty(), true)
        } else if !r.matched {
            let rest = parse_top(toks, c + 1);
            (seq![node_over(toks, SpecNodeKind::Error(msg_unexpected()), c, c)] + rest.0, rest.1)
        } else if r.next <= c || r.next > toks.len() {
            (Seq::empty(), true)
        } else {
            let rest = parse_top(toks, r.next);
            (r.emitted + rest.0, rest.1)
        }
    }
}

/// The nodes that parsing `toks` gives.
pub open spec fn parse(toks: Seq<SpecToken>) -> Seq<SpecNode> {
    parse_top(toks, 0).0
}

/// Whether the parser, given `toks`, never returns.
pub open spec fn parse_stalls(toks: Seq<SpecToken>) -> bool {
    parse_top(toks, 0).1
}

proof fn lemma_item_bounds(toks: Seq<SpecToken>, c: int)
    requires
        0 <= c < toks.len(),
    ensures
        parse_item(toks, c).matched && !parse_item(toks, c).stalls ==> c < parse_item(toks, c).next
            <= toks.len(),
    decreases toks.len() - c, 1int,
{
    match toks[c].kind {
        SpecTokenKind::KwLoop => {
            lemma_body_bounds(toks, c + 1);
        },
        SpecTokenKind::KwIf => {
            lemma_body_bounds(toks, c + 1);
        },
        SpecTokenKind::Symbol(_) => {
            if c + 2 < toks.len() {
                lemma_body_bounds(toks, c + 3);
            }
        },
        _ => {},
    }
}

proof fn lemma_body_bounds(toks: Seq<SpecToken>, b: int)
    requires
        1 <= b <= toks.len(),
    ensures
        !parse_body(toks, b).stalls ==> b <= parse_body(toks, b).next <= toks.len(),
        !parse_body(toks, b).stalls && parse_body(toks, b).body is Some ==> b + 2 <= parse_body(
            toks,
            b,
        ).next,
    decreases toks.len() - b, 2int,
{
    if b < toks.len() && is_kind(toks[b], SpecTokenKind::LCurly) && !(b + 1 < toks.len()
        && is_kind(toks[b + 1], SpecTokenKind::RCurly)) {
        lemma_items_bounds(toks, b + 1);
    }
}

proof fn lemma_items_bounds(toks: Seq<SpecToken>, c: int)
    requires
        1 <= c <= toks.len(),
    ensures
        !parse_items(toks, c).stalls ==> c <= parse_items(toks, c).next <= toks.len(),
        !parse_items(toks, c).stalls && parse_items(toks, c).closed ==> c + 1 <= parse_items(
            toks,
            c,
        ).next,
        !parse_items(toks, c).stalls && !parse_items(toks, c).closed ==> parse_items(toks, c).next
            == toks.len(),
    decreases toks.len() - c, 3int,
{
    if c < toks.len() && !is_kind(toks[c], SpecTokenKind::RCurly) {
        lemma_item_bounds(toks, c);
        let r = parse_item(toks, c);
        if !(r.stalls || !r.matched || r.next <= c || r.next > toks.len()) {
            lemma_items_bounds(toks, r.next);
        }
    }
}

// ---------------------------------------------------------------------------
// The parser
// ---------------------------------------------------------------------------

/// `new` is `old` with nodes appended whose views are `added`.
pub open spec fn extends(new: Seq<Node>, old: Seq<Node>, added: Seq<SpecNode>) -> bool {
    &&& new.len() >= old.len()
    &&& new.take(old.len() as int) == old
    &&& nodes_view(new.skip(old.len() as int)) == added
}

pub proof fn lemma_extends_view(new: Seq<Node>, old: Seq<Node>, added: Seq<SpecNode>)
    requires
        extends(new, old, added),
    ensures
        nodes_view(new) == nodes_view(old) + added,
{
    assert(new =~= new.take(old.len() as int) + new.skip(old.len() as int));
    lemma_nodes_view_concat(old, new.skip(old.len() as int));
}

proof fn lemma_extends_refl(a: Seq<Node>)
    ensures
        extends(a, a, Seq::empty()),
{
    assert(a.take(a.len() as int) =~= a);
    assert(a.skip(a.len() as int) =~= Seq::<Node>::empty());
    assert(nodes_view(Seq::<Node>::empty()) =~= Seq::<SpecNode>::empty());
}

proof fn lemma_extends_trans(a: Seq<Node>, b: Seq<Node>, c: Seq<Node>, x: Seq<SpecNode>, y: Seq<SpecNode>)
    requires
        extends(b, a, x),
        extends(c, b, y),
    ensures
        extends(c, a, x + y),
{
    assert(c.take(a.len() as int) =~= b.take(a.len() as int)) by {
        assert(c.take(b.len() as int) == b);
    }
    let bs = b.skip(a.len() as int);
    let cs = c.skip(b.len() as int);
    assert(c.skip(a.len() as int) =~= bs + cs) by {
        assert(c.take(b.len() as int) == b);
    }
    lemma_nodes_view_concat(bs, cs);
}

proof fn lemma_extends_push(a: Seq<Node>, n: Node)
    ensures
        extends(a.push(n), a, seq![n@]),
{
    assert(a.push(n).take(a.len() as int) =~= a);
    assert(a.push(n).skip(a.len() as int) =~= seq![n]);
    assert(seq![n].drop_last() =~= Seq::<Node>::empty());
    assert(nodes_view(seq![n]) =~= nodes_view(Seq::<Node>::empty()).push(n@));
    assert(nodes_view(Seq::<Node>::empty()) =~= Seq::<SpecNode>::empty());
}

/// The outcome of trying an item at the cursor.
enum Outcome {
    NoMatch,
    Matched,
    Stalled,
}

/// The outcome of parsing a body.
enum BodyOutcome {
    Body(Vec<Node>),
    NoBody,
    Stalled,
}

pub open spec fn is_literal_kind(k: SpecTokenKind) -> bool {
    match k {
        SpecTokenKind::Number(_) | SpecTokenKind::Int(_) | SpecTokenKind::String(_)
        | SpecTokenKind::Bool(_) => true,
        _ => false,
    }
}

pub open spec fn is_unit_kind(k: SpecTokenKind) -> bool {
    match k {
        SpecTokenKind::LParen | SpecTokenKind::RParen | SpecTokenKind::LCurly
        | SpecTokenKind::RCurly | SpecTokenKind::KwBreak | SpecTokenKind::KwLoop
        | SpecTokenKind::KwIf => true,
        _ => false,
    }
}

fn same_unit_kind(a: &TokenKind, b: &TokenKind) -> (r: bool)
    requires
        is_unit_kind(b@),
    ensures
        r == (a@ == b@),
{
    match (a, b) {
        (TokenKind::LParen, TokenKind::LParen) => true,
        (TokenKind::RParen, TokenKind::RParen) => true,
        (TokenKind::LCurly, TokenKind::LCurly) => true,
        (TokenKind::RCurly, TokenKind::RCurly) => true,
        (TokenKind::KwBreak, TokenKind::KwBreak) => true,
        (TokenKind::KwLoop, TokenKind::KwLoop) => true,
        (TokenKind::KwIf, TokenKind::KwIf) => true,
        _ => false,
    }
}

pub struct Parser {
    tokens: Vec<Token>,
    pub nodes: Vec<Node>,
    cursor: usize,
}

impl Parser {
    /// The tokens being parsed.
    pub closed spec fn token_list(&self) -> Seq<SpecToken> {
        tokens_view(self.tokens@)
    }

    /// The nodes produced so far.
    pub closed spec fn node_list(&self) -> Seq<SpecNode> {
        nodes_view(self.nodes@)
    }

    /// The token position where parsing goes on.
    pub closed spec fn position(&self) -> int {
        self.cursor as int
    }

    pub closed spec fn wf(&self) -> bool {
        &&& self.cursor <= self.tokens@.len()
        &&& self.tokens@.len() <= usize::MAX
    }

    closed spec fn toks(&self) -> Seq<SpecToken> {
        tokens_view(self.tokens@)
    }

    /// `new` is `self` after an item with result `ir`.
    closed spec fn item_done(&self, new: &Parser, ir: ItemResult) -> bool {
        &&& new.cursor == ir.next
        &&& extends(new.nodes@, self.nodes@, ir.emitted)
    }

    closed spec fn unchanged(&self, new: &Parser) -> bool {
        &&& new.cursor == self.cursor
        &&& new.nodes@ == self.nodes@
    }

    fn is_eof(&self) -> (r: bool)
        ensures
            r == (self.cursor >= self.tokens@.len()),
    {
        self.cursor >= self.tokens.len()
    }

    /// Consumes a token of the payload-free kind `kind` if it stands at the cursor.
    fn matches(&mut self, kind: TokenKind) -> (r: bool)
        requires
            old(self).wf(),
            is_unit_kind(kind@),
        ensures
            final(self).wf(),
            final(self).tokens == old(self).tokens,
            final(self).nodes == old(self).nodes,
            r == (old(self).cursor < old(self).tokens@.len() && old(self).toks()[old(
                self,
            ).cursor as int].kind == kind@),
            r ==> final(self).cursor == old(self).cursor + 1,
            !r ==> final(self).cursor == old(self).cursor,
    {
        if self.cursor < self.tokens.len() && same_unit_kind(&self.tokens[self.cursor].kind, &kind) {
            proof {
                crate::lexer::lemma_tokens_view_index(self.tokens@, self.cursor as int);
            }
            self.cursor = self.cursor + 1;
            true
        } else {
            proof {
                if self.cursor < self.tokens@.len() {
                    crate::lexer::lemma_tokens_view_index(self.tokens@, self.cursor as int);
                }
            }
            false
        }
    }

    fn try_literal(&mut self) -> (r: bool)
        requires
            old(self).wf(),
            old(self).cursor < old(self).tokens@.len(),
        ensures
            final(self).wf(),
            final(self).tokens == old(self).tokens,
            r == is_literal_kind(old(self).toks()[old(self).cursor as int].kind),
            r ==> old(self).item_done(final(self), parse_item(old(self).toks(), old(self).cursor as int)),
            !r ==> old(self).unchanged(final(self)),
    {
        proof {
            crate::lexer::lemma_tokens_view_index(self.tokens@, self.cursor as int);
        }
        let kind = match &self.tokens[self.cursor].kind {
            TokenKind::Number(n) => NodeKind::Number(n.clone()),
            TokenKind::Int(n) => NodeKind::Int(*n),
            TokenKind::String(t) => NodeKind::String(t.clone()),
            TokenKind::Bool(b) => NodeKind::Bool(*b),
            _ => {
                return false;
            },
        };
        self.cursor = self.cursor + 1;
        self.push_node(kind, 1)
    }

    fn try_break(&mut self) -> (r: bool)
        requires
            old(self).wf(),
            old(self).cursor < old(self).tokens@.len(),
        ensures
            final(self).wf(),
            final(self).tokens == old(self).tokens,
            r == (old(self).toks()[old(self).cursor as int].kind == SpecTokenKind::KwBreak),
            r ==> old(self).item_done(final(self), parse_item(old(self).toks(), old(self).cursor as int)),
            !r ==> old(self).unchanged(final(self)),
    {
        if self.matches(TokenKind::KwBreak) {
            self.push_node(NodeKind::Break, 1)
        } else {
            false
        }
    }

    fn try_instruction(&mut self) -> (r: bool)
        requires
            old(self).wf(),
            old(self).cursor < old(self).tokens@.len(),
        ensures
            final(self).wf(),
            final(self).tokens == old(self).tokens,
            r == (old(self).toks()[old(self).cursor as int].kind is Symbol),
            r ==> extends(
                final(self).nodes@,
                old(self).nodes@,
                seq![
                    node_over(
                        old(self).toks(),
                        SpecNodeKind::Instruction(
                            old(self).toks()[old(self).cursor as int].kind->Symbol_0,
                        ),
                        old(self).cursor as int,
                        old(self).cursor as int,
                    ),
                ],
            ) && final(self).cursor == old(self).cursor + 1,
            !r ==> old(self).unchanged(final(self)),
    {
        proof {
            crate::lexer::lemma_tokens_view_index(self.tokens@, self.cursor as int);
        }
        let inst = match &self.tokens[self.cursor].kind {
            TokenKind::Symbol(n) => n.clone(),
            _ => {
                return false;
            },
        };
        self.cursor = self.cursor + 1;
        self.push_node(NodeKind::Instruction(inst), 1);
        true
    }

    /// Parses a body whose `{` should stand at the cursor.
    fn parse_body(&mut self) -> (r: BodyOutcome)
        requires
            old(self).wf(),
            1 <= old(self).cursor <= old(self).tokens@.len(),
        ensures
            final(self).wf(),
            final(self).tokens == old(self).tokens,
            ({
                let br = parse_body(old(self).toks(), old(self).cursor as int);
                match r {
                    BodyOutcome::Body(v) => !br.stalls && br.body == Some(nodes_view(v@))
                        && final(self).cursor == br.next && extends(
                        final(self).nodes@,
                        old(self).nodes@,
                        br.emitted,
                    ),
                    BodyOutcome::NoBody => !br.stalls && br.body is None && final(self).cursor
                        == br.next && extends(final(self).nodes@, old(self).nodes@, br.emitted),
                    BodyOutcome::Stalled => br.stalls,
                }
            }),
        decreases old(self).tokens@.len() - old(self).cursor, 3nat,
    {
        let ghost toks = self.toks();
        let ghost b = self.cursor as int;
        proof {
            lemma_extends_refl(self.nodes@);
        }
        if !self.matches(TokenKind::LCurly) {
            self.push_node(NodeKind::Error(String::from_str("Expected '{'")), 1);
            return BodyOutcome::NoBody;
        }
        if self.matches(TokenKind::RCurly) {
            return BodyOutcome::Body(Vec::new());
        }
        let start_body = self.nodes.len();
        let ghost base = self.nodes@;
        let ghost mut acc: Seq<SpecNode> = Seq::empty();
        proof {
            lemma_extends_refl(self.nodes@);
            assert(parse_items(toks, b + 1).emitted =~= acc + parse_items(toks, b + 1).emitted);
        }
        while !self.is_eof()
            invariant
                self.wf(),
                self.tokens == old(self).tokens,
                toks == self.toks(),
                toks == old(self).toks(),
                b == old(self).cursor,
                1 <= b,
                base == old(self).nodes@,
                start_body == base.len(),
                b + 1 <= self.cursor <= toks.len(),
                b < toks.len() && is_kind(toks[b], SpecTokenKind::LCurly),
                !(b + 1 < toks.len() && is_kind(toks[b + 1], SpecTokenKind::RCurly)),
                extends(self.nodes@, base, acc),
                parse_items(toks, b + 1).closed == parse_items(toks, self.cursor as int).closed,
                parse_items(toks, b + 1).emitted == acc + parse_items(
                    toks,
                    self.cursor as int,
                ).emitted,
                parse_items(toks, b + 1).next == parse_items(toks, self.cursor as int).next,
                parse_items(toks, b + 1).stalls == parse_items(toks, self.cursor as int).stalls,
            decreases toks.len() - self.cursor,
        {
            let ghost c = self.cursor as int;
            let ghost pre = self.nodes@;
            if self.matches(TokenKind::RCurly) {
                let body = self.nodes.split_off(start_body);
                proof {
                    assert(parse_items(toks, c).emitted =~= Seq::<SpecNode>::empty());
                    assert(acc + Seq::<SpecNode>::empty() =~= acc);
                    assert(body@ =~= pre.skip(start_body as int));
                    assert(self.nodes@ =~= base);
                    lemma_extends_refl(self.nodes@);
                }
                return BodyOutcome::Body(body);
            }
            proof {
                lemma_item_bounds(toks, c);
            }
            let ghost before = self.nodes@;
            match self.try_one() {
                Outcome::NoMatch => {
                    assert(parse_items(toks, c).stalls);
                    assert(parse_body(toks, b).stalls);
                    return BodyOutcome::Stalled;
                },
                Outcome::Stalled => {
                    assert(parse_items(toks, c).stalls);
                    assert(parse_body(toks, b).stalls);
                    return BodyOutcome::Stalled;
                },
                Outcome::Matched => {
                    proof {
                        let ir = parse_item(toks, c);
                        lemma_extends_trans(base, before, self.nodes@, acc, ir.emitted);
                        let rest = parse_items(toks, ir.next);
                        assert(acc + (ir.emitted + rest.emitted) =~= (acc + ir.emitted)
                            + rest.emitted);
                        acc = acc + ir.emitted;
                    }
                },
            }
        }
        proof {
            assert(parse_items(toks, toks.len() as int).emitted =~= Seq::<SpecNode>::empty());
            assert(acc + Seq::<SpecNode>::empty() =~= acc);
        }
        let ghost before = self.nodes@;
        self.push_node(NodeKind::Error(String::from_str("Expected closing '}'")), 1);
        proof {
            lemma_extends_trans(
                base,
                before,
                self.nodes@,
                acc,
                seq![
                    node_over(
                        toks,
                        SpecNodeKind::Error(msg_expected_close()),
                        toks.len() - 1,
                        toks.len() - 1,
                    ),
                ],
            );
        }
        BodyOutcome::NoBody
    }

    /// `loop` or `if` at the cursor, with its body.
    fn try_block(&mut self, is_loop: bool) -> (r: Outcome)
        requires
            old(self).wf(),
            old(self).cursor < old(self).tokens@.len(),
        ensures
            final(self).wf(),
            final(self).tokens == old(self).tokens,
            ({
                let k = old(self).toks()[old(self).cursor as int].kind;
                let ir = parse_item(old(self).toks(), old(self).cursor as int);
                if k == (if is_loop {
                    SpecTokenKind::KwLoop
                } else {
                    SpecTokenKind::KwIf
                }) {
                    match r {
                        Outcome::NoMatch => false,
                        Outcome::Matched => !ir.stalls && old(self).item_done(final(self), ir),
                        Outcome::Stalled => ir.stalls,
                    }
                } else {
                    r is NoMatch && old(self).unchanged(final(self))
                }
            }),
        decreases old(self).tokens@.len() - old(self).cursor, 0nat,
    {
        let ghost toks = self.toks();
        let ghost c = self.cursor as int;
        let start = self.cursor;
        let kw = if is_loop {
            TokenKind::KwLoop
        } else {
            TokenKind::KwIf
        };
        if !self.matches(kw) {
            return Outcome::NoMatch;
        }
        match self.parse_body() {
            BodyOutcome::Body(body) => {
                proof {
                    lemma_body_bounds(toks, c + 1);
                }
                let ghost before = self.nodes@;
                let len = self.cursor - start;
                let ghost bv = nodes_view(body@);
                if is_loop {
                    self.push_node(NodeKind::Loop { body }, len);
                } else {
                    self.push_node(NodeKind::If { body }, len);
                }
                proof {
                    let br = parse_body(toks, c + 1);
                    let kind = if is_loop {
                        SpecNodeKind::Loop(bv)
                    } else {
                        SpecNodeKind::If(bv)
                    };
                    lemma_extends_trans(
                        old(self).nodes@,
                        before,
                        self.nodes@,
                        br.emitted,
                        seq![node_over(toks, kind, c, br.next - 1)],
                    );
                }
                Outcome::Matched
            },
            BodyOutcome::NoBody => Outcome::Matched,
            BodyOutcome::Stalled => Outcome::Stalled,
        }
    }

    fn try_loop(&mut self) -> (r: Outcome)
        requires
            old(self).wf(),
            old(self).cursor < old(self).tokens@.len(),
        ensures
            final(self).wf(),
            final(self).tokens == old(self).tokens,
            ({
                let k = old(self).toks()[old(self).cursor as int].kind;
                let ir = parse_item(old(self).toks(), old(self).cursor as int);
                if k == SpecTokenKind::KwLoop {
                    match r {
                        Outcome::NoMatch => false,
                        Outcome::Matched => !ir.stalls && old(self).item_done(final(self), ir),
                        Outcome::Stalled => ir.stalls,
                    }
                } else {
                    r is NoMatch && old(self).unchanged(final(self))
                }
            }),
        decreases old(self).tokens@.len() - old(self).cursor, 1nat,
    {
        self.try_block(true)
    }

    fn try_if(&mut self) -> (r: Outcome)
        requires
            old(self).wf(),
            old(self).cursor < old(self).tokens@.len(),
        ensures
            final(self).wf(),
            final(self).tokens == old(self).tokens,
            ({
                let k = old(self).toks()[old(self).cursor as int].kind;
                let ir = parse_item(old(self).toks(), old(self).cursor as int);
                if k == SpecTokenKind::KwIf {
                    match r {
                        Outcome::NoMatch => false,
                        Outcome::Matched => !ir.stalls && old(self).item_done(final(self), ir),
                        Outcome::Stalled => ir.stalls,
                    }
                } else {
                    r is NoMatch && old(self).unchanged(final(self))
                }
            }),
        decreases old(self).tokens@.len() - old(self).cursor, 1nat,
    {
        self.try_block(false)
    }

    /// A function definition: a symbol, `(`, `)`, then a body.
    fn try_function(&mut self) -> (r: Outcome)
        requires
            old(self).wf(),
            old(self).cursor < old(self).tokens@.len(),
        ensures
            final(self).wf(),
            final(self).tokens == old(self).tokens,
            ({
                let toks = old(self).toks();
                let c = old(self).cursor as int;
                let ir = parse_item(toks, c);
                if toks[c].kind is Symbol && c + 2 < toks.len() && is_kind(
                    toks[c + 1],
                    SpecTokenKind::LParen,
                ) && is_kind(toks[c + 2], SpecTokenKind::RParen) {
                    match r {
                        Outcome::NoMatch => false,
                        Outcome::Matched => !ir.stalls && old(self).item_done(final(self), ir),
                        Outcome::Stalled => ir.stalls,
                    }
                } else {
                    r is NoMatch && old(self).unchanged(final(self))
                }
            }),
        decreases old(self).tokens@.len() - old(self).cursor, 1nat,
    {
        let ghost toks = self.toks();
        let ghost c = self.cursor as int;
        let start = self.cursor;
        proof {
            crate::lexer::lemma_tokens_view_index(self.tokens@, c);
        }
        let name = match &self.tokens[self.cursor].kind {
            TokenKind::Symbol(n) => n.clone(),
            _ => {
                return Outcome::NoMatch;
            },
        };
        self.cursor = self.cursor + 1;
        if !self.matches(TokenKind::LParen) || !self.matches(TokenKind::RParen) {
            self.cursor = start;
            return Outcome::NoMatch;
        }
        match self.parse_body() {
            BodyOutcome::Body(body) => {
                proof {
                    lemma_body_bounds(toks, c + 3);
                }
                let ghost before = self.nodes@;
                let len = self.cursor - start;
                let ghost bv = nodes_view(body@);
                let params: Vec<ValueType> = Vec::new();
                assert(params@ =~= Seq::<ValueType>::empty());
                self.push_node(NodeKind::Function { name, params, body }, len);
                proof {
                    let br = parse_body(toks, c + 3);
                    lemma_extends_trans(
                        old(self).nodes@,
                        before,
                        self.nodes@,
                        br.emitted,
                        seq![
                            node_over(
                                toks,
                                SpecNodeKind::Function(toks[c].kind->Symbol_0, Seq::empty(), bv),
                                c,
                                br.next - 1,
                            ),
                        ],
                    );
                }
                Outcome::Matched
            },
            BodyOutcome::NoBody => Outcome::Matched,
            BodyOutcome::Stalled => Outcome::Stalled,
        }
    }

    /// One item at the cursor.
    fn try_one(&mut self) -> (r: Outcome)
        requires
            old(self).wf(),
            old(self).cursor < old(self).tokens@.len(),
        ensures
            final(self).wf(),
            final(self).tokens == old(self).tokens,
            ({
                let ir = parse_item(old(self).toks(), old(self).cursor as int);
                match r {
                    Outcome::NoMatch => !ir.matched && !ir.stalls && old(self).unchanged(final(self)),
                    Outcome::Matched => ir.matched && !ir.stalls && old(self).item_done(
                        final(self),
                        ir,
                    ),
                    Outcome::Stalled => ir.stalls,
                }
            }),
        decreases old(self).tokens@.len() - old(self).cursor, 2nat,
    {
        if self.try_literal() {
            return Outcome::Matched;
        }
        if self.try_break() {
            return Outcome::Matched;
        }
        match self.try_loop() {
            Outcome::NoMatch => {},
            r => {
                return r;
            },
        }
        match self.try_if() {
            Outcome::NoMatch => {},
            r => {
                return r;
            },
        }
        match self.try_function() {
            Outcome::NoMatch => {},
            r => {
                return r;
            },
        }
        if self.try_instruction() {
            return Outcome::Matched;
        }
        Outcome::NoMatch
    }

    /// The nodes produced so far (the field `nodes`).
    pub fn nodes(&self) -> (r: &Vec<Node>)
        ensures
            nodes_view(r@) == self.node_list(),
    {
        &self.nodes
    }

    /// The parser's nodes, taken out of it.
    pub fn into_nodes(self) -> (r: Vec<Node>)
        ensures
            nodes_view(r@) == self.node_list(),
    {
        self.nodes
    }

    pub fn new(tokens: Vec<Token>) -> (p: Parser)
        ensures
            p.wf(),
            p.token_list() == tokens_view(tokens@),
            p.node_list() == Seq::<SpecNode>::empty(),
            p.position() == 0,
    {
        let _n = tokens.len();
        let p = Parser { tokens, nodes: Vec::new(), cursor: 0 };
        assert(nodes_view(p.nodes@) =~= Seq::<SpecNode>::empty());
        p
    }

    /// Parses the top level from the cursor to the end. Answers whether the
    /// parse returns; when it does, the nodes of the rest were appended.
    fn parse_rest(&mut self) -> (ok: bool)
        requires
            old(self).wf(),
        ensures
            final(self).wf(),
            final(self).tokens == old(self).tokens,
            ok == !parse_top(old(self).toks(), old(self).cursor as int).1,
            ok ==> extends(
                final(self).nodes@,
                old(self).nodes@,
                parse_top(old(self).toks(), old(self).cursor as int).0,
            ),
            ok ==> final(self).cursor == old(self).tokens@.len(),
    {
        let ghost toks = self.toks();
        let ghost c0 = self.cursor as int;
        let ghost base = self.nodes@;
        let ghost mut acc: Seq<SpecNode> = Seq::empty();
        proof {
            lemma_extends_refl(self.nodes@);
            assert(parse_top(toks, c0).0 =~= acc + parse_top(toks, c0).0);
        }
        while !self.is_eof()
            invariant
                self.wf(),
                self.tokens == old(self).tokens,
                toks == self.toks(),
                toks == old(self).toks(),
                c0 == old(self).cursor,
                base == old(self).nodes@,
                c0 <= self.cursor <= toks.len(),
                extends(self.nodes@, base, acc),
                parse_top(toks, c0).0 == acc + parse_top(toks, self.cursor as int).0,
                parse_top(toks, c0).1 == parse_top(toks, self.cursor as int).1,
            decreases toks.len() - self.cursor,
        {
            let ghost c = self.cursor as int;
            let ghost before = self.nodes@;
            proof {
                lemma_item_bounds(toks, c);
            }
            match self.try_one() {
                Outcome::Matched => {
                    proof {
                        let ir = parse_item(toks, c);
                        lemma_extends_trans(base, before, self.nodes@, acc, ir.emitted);
                        let rest = parse_top(toks, ir.next);
                        assert(acc + (ir.emitted + rest.0) =~= (acc + ir.emitted) + rest.0);
                        acc = acc + ir.emitted;
                    }
                },
                Outcome::Stalled => {
                    return false;
                },
                Outcome::NoMatch => {
                    self.cursor = self.cursor + 1;
                    self.push_node(NodeKind::Error(String::from_str("Unexpected token")), 1);
                    proof {
                        let e = seq![node_over(toks, SpecNodeKind::Error(msg_unexpected()), c, c)];
                        lemma_extends_trans(base, before, self.nodes@, acc, e);
                        let rest = parse_top(toks, c + 1);
                        assert(acc + (e + rest.0) =~= (acc + e) + rest.0);
                        acc = acc + e;
                    }
                },
            }
        }
        assert(acc + parse_top(toks, self.cursor as int).0 =~= acc);
        true
    }

    /// Parses the rest of the tokens and appends the nodes.
    ///
    /// The parse must return (see `parse_stalls`); `try_all_checked` tests that.
    pub fn try_all(&mut self)
        requires
            old(self).wf(),
            !parse_top(old(self).token_list(), old(self).position()).1,
        ensures
            final(self).wf(),
            final(self).token_list() == old(self).token_list(),
            final(self).position() == final(self).token_list().len(),
            final(self).node_list() == old(self).node_list() + parse_top(
                old(self).token_list(),
                old(self).position(),
            ).0,
    {
        let ghost toks = self.toks();
        let ghost c0 = self.cursor as int;
        let ghost n0 = self.nodes@;
        self.parse_rest();
        proof {
            lemma_extends_view(self.nodes@, n0, parse_top(toks, c0).0);
            crate::lexer::lemma_tokens_view_len(self.tokens@);
        }
    }

    /// Like `try_all`, for any tokens: answers whether the parse returns, and
    /// when it does, has appended the nodes of the rest. Where the parse would
    /// never return, it stops at the first item that cannot start.
    pub fn try_all_checked(&mut self) -> (ok: bool)
        requires
            old(self).wf(),
        ensures
            final(self).wf(),
            final(self).token_list() == old(self).token_list(),
            ok == !parse_top(old(self).token_list(), old(self).position()).1,
            ok ==> final(self).position() == final(self).token_list().len(),
            ok ==> final(self).node_list() == old(self).node_list() + parse_top(
                old(self).token_list(),
                old(self).position(),
            ).0,
    {
        let ghost toks = self.toks();
        let ghost c0 = self.cursor as int;
        let ghost n0 = self.nodes@;
        let ok = self.parse_rest();
        proof {
            if ok {
                lemma_extends_view(self.nodes@, n0, parse_top(toks, c0).0);
            }
            crate::lexer::lemma_tokens_view_len(self.tokens@);
        }
        ok
    }

    /// Appends a node spanning the last `len` tokens before the cursor.
    fn push_node(&mut self, kind: NodeKind, len: usize) -> (r: bool)
        requires
            old(self).wf(),
            1 <= len <= old(self).cursor,
        ensures
            final(self).wf(),
            final(self).tokens == old(self).tokens,
            final(self).cursor == old(self).cursor,
            r,
            extends(
                final(self).nodes@,
                old(self).nodes@,
                seq![
                    node_over(
                        old(self).toks(),
                        node_kind_view(kind),
                        old(self).cursor - len,
                        old(self).cursor - 1,
                    ),
                ],
            ),
    {
        let start = self.tokens[self.cursor - len].pos.start;
        let end = self.tokens[self.cursor - 1].pos.end;
        proof {
            crate::lexer::lemma_tokens_view_index(self.tokens@, self.cursor - len);
            crate::lexer::lemma_tokens_view_index(self.tokens@, self.cursor - 1);
        }
        let n = Node { kind, pos: Span { start, end } };
        proof {
            lemma_extends_push(self.nodes@, n);
        }
        self.nodes.push(n);
        true
    }
}

} // verus!
