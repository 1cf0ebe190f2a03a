use vstd::prelude::*;
use crate::text::is_digit_char;
use crate::unicode::is_alpha;
use crate::unicode::is_space;
use crate::unicode::lower_chars;
use crate::lexer::is_word_char;

verus! {

/// A token of the query language, at the specification level.
pub enum SpecTok {
    Term(Seq<char>),
    Number(nat),
    Amp,
    Pipe,
    Excl,
    LRound,
    RRound,
    LCurly,
    RCurly,
    Greater,
    Quote,
    Backslash,
}

/// An operator of the query language, at the specification level.
pub enum SOp {
    And,
    Or,
    Not,
    Near(nat),
    Next,
    LeftBracket,
    Subtract,
}

/// A query AST, at the specification level.
pub enum SNode {
    False,
    Term(Seq<char>),
    And(Box<SNode>, Box<SNode>),
    Or(Box<SNode>, Box<SNode>),
    Not(Box<SNode>),
    Near(Box<SNode>, Box<SNode>, nat, nat),
    Subtract(Box<SNode>, Box<SNode>),
}

/// Why a query failed to lex or parse.
#[derive(PartialEq, Eq, Structural, Clone, Copy, Debug)]
pub enum QueryError {
    /// A character that fits no token.
    InvalidChar(char),
    /// A number literal too large to represent.
    InvalidNumber,
    /// `{` not followed by a number.
    ExpectedNearNumber,
    /// `{ number` not followed by `}`.
    ExpectedNearClose,
    /// A token other than a term inside a phrase literal.
    PhraseToken,
    /// A phrase literal with no closing quote.
    UnclosedPhrase,
    /// A token that cannot start or continue an expression.
    UnexpectedToken,
    /// An operator applied where no operator was expected.
    UnexpectedOperator,
    /// An operator was needed but the operator stack was empty.
    ExpectedOperator,
    /// An operator missing an operand.
    MissingArgument,
    /// More than one expression left at the end of parsing.
    MultipleExpressions,
}

/// Consumes a word run starting at `i` with accumulator `acc`, returning the
/// lowercased word and the index just past the run.
pub open spec fn word_span(s: Seq<char>, i: int, acc: Seq<char>) -> (Seq<char>, int)
    decreases s.len() - i,
{
    if i < 0 || i >= s.len() {
        (acc, i)
    } else if is_word_char(s[i], acc.len() != 0) {
        word_span(s, i + 1, acc + lower_chars(s[i]))
    } else {
        (acc, i)
    }
}

pub proof fn lemma_word_span(s: Seq<char>, i: int, acc: Seq<char>)
    requires
        0 <= i <= s.len(),
    ensures
        i <= word_span(s, i, acc).1 <= s.len(),
        i < s.len() && is_word_char(s[i], acc.len() != 0) ==> word_span(s, i, acc).1 >= i + 1,
    decreases s.len() - i,
{
    if i < s.len() && is_word_char(s[i], acc.len() != 0) {
        lemma_word_span(s, i + 1, acc + lower_chars(s[i]));
    }
}

/// The index just past the whitespace run starting at `i`.
pub open spec fn space_span(s: Seq<char>, i: int) -> int
    decreases s.len() - i,
{
    if i < 0 || i >= s.len() {
        i
    } else if is_space(s[i]) {
        space_span(s, i + 1)
    } else {
        i
    }
}

pub proof fn lemma_space_span(s: Seq<char>, i: int)
    requires
        0 <= i <= s.len(),
    ensures
        i <= space_span(s, i) <= s.len(),
        i < s.len() && is_space(s[i]) ==> space_span(s, i) >= i + 1,
    decreases s.len() - i,
{
    if i < s.len() && is_space(s[i]) {
        lemma_space_span(s, i + 1);
    }
}

/// The index just past the digit run starting at `i`.
pub open spec fn digit_span(s: Seq<char>, i: int) -> int
    decreases s.len() - i,
{
    if i < 0 || i >= s.len() {
        i
    } else if is_digit_char(s[i]) {
        digit_span(s, i + 1)
    } else {
        i
    }
}

pub proof fn lemma_digit_span(s: Seq<char>, i: int)
    requires
        0 <= i <= s.len(),
    ensures
        i <= digit_span(s, i) <= s.len(),
        i < s.len() && is_digit_char(s[i]) ==> digit_span(s, i) >= i + 1,
        forall|t: int| i <= t < digit_span(s, i) ==> is_digit_char(#[trigger] s[t]),
    decreases s.len() - i,
{
    if i < s.len() && is_digit_char(s[i]) {
        lemma_digit_span(s, i + 1);
    }
}

/// The value of a run of decimal digit characters.
pub open spec fn digits_value(ds: Seq<char>) -> nat
    decreases ds.len(),
{
    if ds.len() == 0 {
        0
    } else {
        (digits_value(ds.drop_last()) * 10 + (ds.last() as u32 - 48)) as nat
    }
}

/// Longer digit runs denote values at least as large.
pub proof fn lemma_digits_value_prefix(ds: Seq<char>, k: int)
    requires
        0 <= k <= ds.len(),
        forall|t: int| 0 <= t < ds.len() ==> is_digit_char(#[trigger] ds[t]),
    ensures
        digits_value(ds.take(k)) <= digits_value(ds),
    decreases ds.len() - k,
{
    if k == ds.len() {
        assert(ds.take(k) =~= ds);
    } else {
        assert(ds.take(k + 1).drop_last() =~= ds.take(k));
        assert(ds.take(k + 1).last() == ds[k]);
        lemma_digits_value_prefix(ds, k + 1);
    }
}

/// The token a single punctuation character denotes, if any.
pub open spec fn punct_tok(c: char) -> Option<SpecTok> {
    match c {
        '&' => Some(SpecTok::Amp),
        '|' => Some(SpecTok::Pipe),
        '!' => Some(SpecTok::Excl),
        '(' => Some(SpecTok::LRound),
        ')' => Some(SpecTok::RRound),
        '{' => Some(SpecTok::LCurly),
        '}' => Some(SpecTok::RCurly),
        '>' => Some(SpecTok::Greater),
        '"' => Some(SpecTok::Quote),
        '\\' => Some(SpecTok::Backslash),
        _ => None,
    }
}

/// The tokens of the query text from index `i` on: maximal word runs become
/// lowercased terms, whitespace is skipped, digit runs become numbers, and
/// single punctuation characters become operator tokens.
pub open spec fn qlex_from(s: Seq<char>, i: int) -> Result<Seq<SpecTok>, QueryError>
    decreases s.len() - i,
{
    if i < 0 || i >= s.len() {
        Ok(Seq::empty())
    } else if is_alpha(s[i]) {
        let (w, j) = word_span(s, i, Seq::empty());
        proof {
            lemma_word_span(s, i, Seq::empty());
        }
        match qlex_from(s, j) {
            Ok(ts) => Ok(seq![SpecTok::Term(w)] + ts),
            Err(e) => Err(e),
        }
    } else if is_space(s[i]) {
        proof {
            lemma_space_span(s, i);
        }
        qlex_from(s, space_span(s, i))
    } else if is_digit_char(s[i]) {
        let j = digit_span(s, i);
        let v = digits_value(s.subrange(i, j));
        proof {
            lemma_digit_span(s, i);
        }
        if v > usize::MAX {
            Err(QueryError::InvalidNumber)
        } else {
            match qlex_from(s, j) {
                Ok(ts) => Ok(seq![SpecTok::Number(v)] + ts),
                Err(e) => Err(e),
            }
        }
    } else {
        match punct_tok(s[i]) {
            Some(t) => match qlex_from(s, i + 1) {
                Ok(ts) => Ok(seq![t] + ts),
                Err(e) => Err(e),
            },
            None => Err(QueryError::InvalidChar(s[i])),
        }
    }
}

/// The tokens of a whole query text.
pub open spec fn qlex(s: Seq<char>) -> Result<Seq<SpecTok>, QueryError> {
    qlex_from(s, 0)
}

/// The precedence of an operator; higher binds tighter. The bracket sentinel
/// has precedence zero so that nothing pops across it.
pub open spec fn sop_prec(op: SOp) -> nat {
    match op {
        SOp::Next => 100,
        SOp::Near(_) => 50,
        SOp::Not => 4,
        SOp::Subtract => 3,
        SOp::And => 2,
        SOp::Or => 1,
        SOp::LeftBracket => 0,
    }
}

/// The operator a plain operator token denotes, if any.
pub open spec fn sop_of(t: SpecTok) -> Option<SOp> {
    match t {
        SpecTok::Amp => Some(SOp::And),
        SpecTok::Pipe => Some(SOp::Or),
        SpecTok::Excl => Some(SOp::Not),
        SpecTok::Backslash => Some(SOp::Subtract),
        _ => None,
    }
}

/// Applies one operator to the operand stack: pops its operands from the top
/// and pushes the combined node. The right operand is the top of the stack.
pub open spec fn apply_one(op: SOp, nodes: Seq<SNode>) -> Result<Seq<SNode>, QueryError> {
    match op {
        SOp::Not => if nodes.len() < 1 {
            Err(QueryError::MissingArgument)
        } else {
            Ok(nodes.drop_last().push(SNode::Not(Box::new(nodes.last()))))
        },
        SOp::LeftBracket => Err(QueryError::UnexpectedOperator),
        _ => if nodes.len() < 2 {
            Err(QueryError::MissingArgument)
        } else {
            let rhs = nodes.last();
            let lhs = nodes[nodes.len() - 2];
            let rest = nodes.drop_last().drop_last();
            let node = match op {
                SOp::And => SNode::And(Box::new(lhs), Box::new(rhs)),
                SOp::Or => SNode::Or(Box::new(lhs), Box::new(rhs)),
                SOp::Subtract => SNode::Subtract(Box::new(lhs), Box::new(rhs)),
                SOp::Near(k) => SNode::Near(Box::new(lhs), Box::new(rhs), k, k),
                _ => SNode::Near(Box::new(lhs), Box::new(rhs), 0, 1),
            };
            Ok(rest.push(node))
        },
    }
}

/// Pops and applies operators while the top one has precedence at least
/// `prec`.
pub open spec fn flush_ge(ops: Seq<SOp>, nodes: Seq<SNode>, prec: nat) -> Result<
    (Seq<SOp>, Seq<SNode>),
    QueryError,
>
    decreases ops.len(),
{
    if ops.len() == 0 {
        Ok((ops, nodes))
    } else if sop_prec(ops.last()) < prec {
        Ok((ops, nodes))
    } else {
        match apply_one(ops.last(), nodes) {
            Ok(nodes1) => flush_ge(ops.drop_last(), nodes1, prec),
            Err(e) => Err(e),
        }
    }
}

/// Pops and applies operators until the bracket sentinel, which is removed.
/// An unmatched closing bracket empties the stack silently.
pub open spec fn close_bracket(ops: Seq<SOp>, nodes: Seq<SNode>) -> Result<
    (Seq<SOp>, Seq<SNode>),
    QueryError,
>
    decreases ops.len(),
{
    if ops.len() == 0 {
        Ok((ops, nodes))
    } else if ops.last() is LeftBracket {
        Ok((ops.drop_last(), nodes))
    } else {
        match apply_one(ops.last(), nodes) {
            Ok(nodes1) => close_bracket(ops.drop_last(), nodes1),
            Err(e) => Err(e),
        }
    }
}

/// Applies every remaining operator, then demands exactly one node: an empty
/// query yields `False`, more than one node is an error.
pub open spec fn drain_ops(ops: Seq<SOp>, nodes: Seq<SNode>) -> Result<SNode, QueryError>
    decreases ops.len(),
{
    if ops.len() == 0 {
        if nodes.len() > 1 {
            Err(QueryError::MultipleExpressions)
        } else if nodes.len() == 1 {
            Ok(nodes.last())
        } else {
            Ok(SNode::False)
        }
    } else {
        match apply_one(ops.last(), nodes) {
            Ok(nodes1) => drain_ops(ops.drop_last(), nodes1),
            Err(e) => Err(e),
        }
    }
}

/// Consumes a phrase literal from `i` to its closing quote: terms become
/// operands, with an implicit phrase-next operator between consecutive
/// terms. Returns the index just past the quote and the two stacks.
pub open spec fn phrase(toks: Seq<SpecTok>, i: int, ops: Seq<SOp>, nodes: Seq<SNode>) -> Result<
    (int, Seq<SOp>, Seq<SNode>),
    QueryError,
>
    decreases toks.len() - i,
{
    if i < 0 || i >= toks.len() {
        Err(QueryError::UnclosedPhrase)
    } else {
        match toks[i] {
            SpecTok::Term(w) => {
                let nodes1 = nodes.push(SNode::Term(w));
                let ops1 = if i + 1 < toks.len() && toks[i + 1] is Term {
                    ops.push(SOp::Next)
                } else {
                    ops
                };
                phrase(toks, i + 1, ops1, nodes1)
            },
            SpecTok::Quote => Ok((i + 1, ops, nodes)),
            _ => Err(QueryError::PhraseToken),
        }
    }
}

pub proof fn lemma_phrase_advances(toks: Seq<SpecTok>, i: int, ops: Seq<SOp>, nodes: Seq<SNode>)
    requires
        0 <= i <= toks.len(),
    ensures
        phrase(toks, i, ops, nodes) matches Ok(r) ==> i + 1 <= r.0 <= toks.len(),
    decreases toks.len() - i,
{
    if i < toks.len() {
        match toks[i] {
            SpecTok::Term(w) => {
                let nodes1 = nodes.push(SNode::Term(w));
                let ops1 = if i + 1 < toks.len() && toks[i + 1] is Term {
                    ops.push(SOp::Next)
                } else {
                    ops
                };
                lemma_phrase_advances(toks, i + 1, ops1, nodes1);
            },
            _ => {},
        }
    }
}

/// One step per token of the shunting-yard parse, carried out over the two
/// stacks; at the end of input the remaining operators are drained.
pub open spec fn parse_from(toks: Seq<SpecTok>, i: int, ops: Seq<SOp>, nodes: Seq<SNode>) -> Result<
    SNode,
    QueryError,
>
    decreases toks.len() - i,
{
    if i < 0 || i >= toks.len() {
        drain_ops(ops, nodes)
    } else {
        match toks[i] {
            SpecTok::Term(w) => parse_from(toks, i + 1, ops, nodes.push(SNode::Term(w))),
            SpecTok::Amp | SpecTok::Pipe | SpecTok::Excl | SpecTok::Backslash => {
                let op = sop_of(toks[i])->Some_0;
                match flush_ge(ops, nodes, sop_prec(op)) {
                    Ok((ops1, nodes1)) => parse_from(toks, i + 1, ops1.push(op), nodes1),
                    Err(e) => Err(e),
                }
            },
            SpecTok::LRound => parse_from(toks, i + 1, ops.push(SOp::LeftBracket), nodes),
            SpecTok::RRound => match close_bracket(ops, nodes) {
                Ok((ops1, nodes1)) => parse_from(toks, i + 1, ops1, nodes1),
                Err(e) => Err(e),
            },
            SpecTok::LCurly => {
                if i + 1 < toks.len() && toks[i + 1] is Number {
                    let k = toks[i + 1]->Number_0;
                    if i + 2 < toks.len() && toks[i + 2] is RCurly {
                        parse_from(toks, i + 3, ops.push(SOp::Near(k)), nodes)
                    } else {
                        Err(QueryError::ExpectedNearClose)
                    }
                } else {
                    Err(QueryError::ExpectedNearNumber)
                }
            },
            SpecTok::Greater => parse_from(toks, i + 1, ops.push(SOp::Next), nodes),
            SpecTok::Quote => {
                match phrase(toks, i + 1, ops, nodes) {
                    Ok((j, ops1, nodes1)) => {
                        proof {
                            lemma_phrase_advances(toks, i + 1, ops, nodes);
                        }
                        parse_from(toks, j, ops1, nodes1)
                    },
                    Err(e) => Err(e),
                }
            },
            _ => Err(QueryError::UnexpectedToken),
        }
    }
}

/// The query AST a token sequence parses to.
pub open spec fn spec_parse(toks: Seq<SpecTok>) -> Result<SNode, QueryError> {
    parse_from(toks, 0, Seq::empty(), Seq::empty())
}

/// The query AST a query text parses to: lexing then parsing.
pub open spec fn spec_parse_text(s: Seq<char>) -> Result<SNode, QueryError> {
    match qlex(s) {
        Ok(ts) => spec_parse(ts),
        Err(e) => Err(e),
    }
}

/// A token of the query language.
#[derive(Debug)]
pub enum Token {
    Term(String),
    Number(usize),
    Ampersand,
    Pipe,
    Exclaim,
    LeftRoundBracket,
    RightRoundBracket,
    LeftCurlyBracket,
    RightCurlyBracket,
    GreaterThan,
    DoubleQuotes,
    Backslash,
}

/// The specification-level value of a token.
pub open spec fn tok_view(t: Token) -> SpecTok {
    match t {
        Token::Term(s) => SpecTok::Term(s@),
        Token::Number(n) => SpecTok::Number(n as nat),
        Token::Ampersand => SpecTok::Amp,
        Token::Pipe => SpecTok::Pipe,
        Token::Exclaim => SpecTok::Excl,
        Token::LeftRoundBracket => SpecTok::LRound,
        Token::RightRoundBracket => SpecTok::RRound,
        Token::LeftCurlyBracket => SpecTok::LCurly,
        Token::RightCurlyBracket => SpecTok::RCurly,
        Token::GreaterThan => SpecTok::Greater,
        Token::DoubleQuotes => SpecTok::Quote,
        Token::Backslash => SpecTok::Backslash,
    }
}

/// The specification-level values of a token sequence.
pub open spec fn tok_views(ts: Seq<Token>) -> Seq<SpecTok> {
    ts.map_values(|t: Token| tok_view(t))
}

/// Joins the tokens already produced with the rest of a lexing outcome.
pub open spec fn lex_glue(
    prefix: Seq<SpecTok>,
    rest: Result<Seq<SpecTok>, QueryError>,
) -> Result<Seq<SpecTok>, QueryError> {
    match rest {
        Ok(ts) => Ok(prefix + ts),
        Err(e) => Err(e),
    }
}

/// An operator of the query language.
#[derive(Clone, Copy, Debug)]
pub enum Operator {
    And,
    Or,
    Not,
    Near(usize),
    Next,
    LeftBracket,
    Subtract,
}

/// The specification-level value of an operator.
pub open spec fn op_view(o: Operator) -> SOp {
    match o {
        Operator::And => SOp::And,
        Operator::Or => SOp::Or,
        Operator::Not => SOp::Not,
        Operator::Near(k) => SOp::Near(k as nat),
        Operator::Next => SOp::Next,
        Operator::LeftBracket => SOp::LeftBracket,
        Operator::Subtract => SOp::Subtract,
    }
}

pub open spec fn op_views(s: Seq<Operator>) -> Seq<SOp> {
    s.map_values(|o: Operator| op_view(o))
}

impl Operator {
    /// The binding strength of this operator; higher binds tighter.
    pub fn precedence(&self) -> (r: usize)
        ensures
            r == sop_prec(op_view(*self)),
    {
        match self {
            Operator::Next => 100,
            Operator::Near(_) => 50,
            Operator::Not => 4,
            Operator::Subtract => 3,
            Operator::And => 2,
            Operator::Or => 1,
            Operator::LeftBracket => 0,
        }
    }

    /// The operator a plain operator token denotes, if any.
    pub fn from_token(token: &Token) -> (r: Option<Operator>)
        ensures
            r is Some <==> sop_of(tok_view(*token)) is Some,
            r is Some ==> op_view(r->Some_0) == sop_of(tok_view(*token))->Some_0,
    {
        match token {
            Token::Ampersand => Some(Operator::And),
            Token::Pipe => Some(Operator::Or),
            Token::Exclaim => Some(Operator::Not),
            Token::Backslash => Some(Operator::Subtract),
            _ => None,
        }
    }
}

/// A query AST: terms combined by Boolean and proximity operators.
#[derive(Debug)]
pub enum LogicNode {
    False,
    Term(String),
    And(Box<LogicNode>, Box<LogicNode>),
    Or(Box<LogicNode>, Box<LogicNode>),
    Not(Box<LogicNode>),
    Near(Box<LogicNode>, Box<LogicNode>, usize, usize),
    Subtract(Box<LogicNode>, Box<LogicNode>),
}

/// The specification-level value of a query AST.
pub open spec fn node_view(n: LogicNode) -> SNode
    decreases n,
{
    match n {
        LogicNode::False => SNode::False,
        LogicNode::Term(s) => SNode::Term(s@),
        LogicNode::And(a, b) => SNode::And(Box::new(node_view(*a)), Box::new(node_view(*b))),
        LogicNode::Or(a, b) => SNode::Or(Box::new(node_view(*a)), Box::new(node_view(*b))),
        LogicNode::Not(a) => SNode::Not(Box::new(node_view(*a))),
        LogicNode::Near(a, b, l, r) => SNode::Near(
            Box::new(node_view(*a)),
            Box::new(node_view(*b)),
            l as nat,
            r as nat,
        ),
        LogicNode::Subtract(a, b) => SNode::Subtract(
            Box::new(node_view(*a)),
            Box::new(node_view(*b)),
        ),
    }
}

pub open spec fn node_views(s: Seq<LogicNode>) -> Seq<SNode> {
    s.map_values(|n: LogicNode| node_view(n))
}

proof fn lemma_tok_views_push(s: Seq<Token>, t: Token)
    ensures
        tok_views(s.push(t)) == tok_views(s).push(tok_view(t)),
{
    assert(tok_views(s.push(t)) =~= tok_views(s).push(tok_view(t)));
}

proof fn lemma_op_views_push(s: Seq<Operator>, o: Operator)
    ensures
        op_views(s.push(o)) == op_views(s).push(op_view(o)),
{
    assert(op_views(s.push(o)) =~= op_views(s).push(op_view(o)));
}

proof fn lemma_op_views_drop(s: Seq<Operator>)
    requires
        s.len() > 0,
    ensures
        op_views(s.drop_last()) == op_views(s).drop_last(),
        op_views(s).last() == op_view(s.last()),
{
    assert(op_views(s.drop_last()) =~= op_views(s).drop_last());
}

proof fn lemma_node_views_push(s: Seq<LogicNode>, n: LogicNode)
    ensures
        node_views(s.push(n)) == node_views(s).push(node_view(n)),
{
    assert(node_views(s.push(n)) =~= node_views(s).push(node_view(n)));
}

proof fn lemma_node_views_drop(s: Seq<LogicNode>)
    requires
        s.len() > 0,
    ensures
        node_views(s.drop_last()) == node_views(s).drop_last(),
        node_views(s).last() == node_view(s.last()),
{
    assert(node_views(s.drop_last()) =~= node_views(s).drop_last());
}


/// Consumes the digit run starting at `start`, returning its value and the
/// index just past it, or reporting a number too large to represent.
fn consume_number(cs: &Vec<char>, start: usize) -> (r: Result<(usize, usize), QueryError>)
    requires
        start < cs@.len(),
        is_digit_char(cs@[start as int]),
    ensures
        r matches Ok(p) ==> ({
            &&& start < p.1 <= cs@.len()
            &&& p.1 == digit_span(cs@, start as int)
            &&& digits_value(cs@.subrange(start as int, p.1 as int)) == p.0
            &&& digits_value(cs@.subrange(start as int, digit_span(cs@, start as int)))
                <= usize::MAX
        }),
        r matches Err(e) ==> e == QueryError::InvalidNumber && digits_value(
            cs@.subrange(start as int, digit_span(cs@, start as int)),
        ) > usize::MAX,
{
    let ghost s = cs@;
    let ghost i0 = start as int;
    let ghost jend = digit_span(s, i0);
    proof {
        lemma_digit_span(s, i0);
    }
    let n = cs.len();
    let mut i: usize = start;
    let mut acc: u128 = 0;
    let mut over = false;
    proof {
        assert(s.subrange(i0, i0) =~= Seq::<char>::empty());
    }
    loop
        invariant
            cs@ == s,
            n == s.len(),
            0 <= i0 <= i <= n,
            digit_span(s, i0) == digit_span(s, i as int),
            jend == digit_span(s, i0),
            !over ==> acc == digits_value(s.subrange(i0, i as int)),
            !over ==> acc <= usize::MAX,
            over ==> digits_value(s.subrange(i0, jend)) > usize::MAX,
            forall|t: int| i0 <= t < i ==> is_digit_char(#[trigger] s[t]),
        ensures
            0 <= i0 <= i <= n,
            jend == i as int,
            !over ==> acc == digits_value(s.subrange(i0, i as int)),
            !over ==> acc <= usize::MAX,
            over ==> digits_value(s.subrange(i0, jend)) > usize::MAX,
        decreases n - i,
    {
        if i >= n {
            assert(digit_span(s, i as int) == i as int);
            break ;
        }
        let c2 = cs[i];
        if !crate::text::char_is_ascii_digit(c2) {
            assert(digit_span(s, i as int) == i as int);
            break ;
        }
        assert(is_digit_char(s[i as int]));
        if !over {
            let d = (c2 as u32 - 48) as u128;
            let acc2 = acc * 10 + d;
            proof {
                assert(s.subrange(i0, i as int + 1).drop_last() =~= s.subrange(i0, i as int));
                assert(s.subrange(i0, i as int + 1).last() == s[i as int]);
            }
            if acc2 > usize::MAX as u128 {
                over = true;
                proof {
                    assert(digits_value(s.subrange(i0, i as int + 1)) > usize::MAX);
                    lemma_digit_span(s, i0);
                    lemma_digit_span(s, i as int);
                    assert(jend >= i + 1);
                    assert(forall|t: int| i0 <= t < jend ==> is_digit_char(#[trigger] s[t]));
                    assert(s.subrange(i0, jend).take(i as int + 1 - i0) =~= s.subrange(
                        i0,
                        i as int + 1,
                    ));
                    assert(forall|t: int|
                        0 <= t < jend - i0 ==> is_digit_char(
                            #[trigger] s.subrange(i0, jend)[t],
                        ));
                    lemma_digits_value_prefix(s.subrange(i0, jend), i as int + 1 - i0);
                }
            } else {
                acc = acc2;
            }
        }
        i += 1;
    }
    if over {
        return Err(QueryError::InvalidNumber);
    }
    Ok((acc as usize, i))
}

/// The lexer of the query language.
pub struct Lexer {
    chars: Vec<char>,
}

impl Lexer {
    /// The characters of the query text.
    pub closed spec fn view(&self) -> Seq<char> {
        self.chars@
    }

    pub fn new(input: &str) -> (r: Lexer)
        ensures
            r@ == input@,
    {
        Lexer { chars: crate::text::str_to_chars(input) }
    }

    /// Splits the query text into tokens, or reports the first offending
    /// character or oversized number.
    #[verifier::rlimit(60)]
    pub fn lex(self) -> (r: Result<Vec<Token>, QueryError>)
        ensures
            r is Ok <==> qlex(self@) is Ok,
            r matches Ok(ts) ==> qlex(self@) == Ok::<Seq<SpecTok>, QueryError>(tok_views(ts@)),
            r matches Err(e) ==> qlex(self@) == Err::<Seq<SpecTok>, QueryError>(e),
    {
        let ghost s = self.chars@;
        let cs = &self.chars;
        let n = cs.len();
        let mut out: Vec<Token> = Vec::new();
        let mut i: usize = 0;
        proof {
            assert(tok_views(out@) =~= Seq::<SpecTok>::empty());
        }
        while i < n
            invariant
                s == self@,
                cs@ == s,
                n == s.len(),
                i <= n,
                qlex(s) == lex_glue(tok_views(out@), qlex_from(s, i as int)),
            decreases n - i,
        {
            let ghost i0 = i as int;
            let c = cs[i];
            let alpha = crate::unicode::char_is_alphabetic(c);
            if alpha {
                let mut w: Vec<char> = Vec::new();
                proof {
                    assert(w@ =~= Seq::<char>::empty());
                }
                loop
                    invariant
                        cs@ == s,
                        n == s.len(),
                        0 <= i0 <= i <= n,
                        word_span(s, i0, Seq::empty()) == word_span(s, i as int, w@),
                    ensures
                        0 <= i0 <= i <= n,
                        word_span(s, i0, Seq::empty()) == (w@, i as int),
                    decreases n - i,
                {
                    if i >= n {
                        assert(word_span(s, i as int, w@) == (w@, i as int));
                        break ;
                    }
                    let c2 = cs[i];
                    let a2 = crate::unicode::char_is_alphabetic(c2);
                    if a2 || (c2 == '\'' && w.len() > 0) {
                        assert(is_word_char(s[i as int], w@.len() != 0));
                        let mut lo = crate::unicode::char_to_lowercase(c2);
                        w.append(&mut lo);
                        i += 1;
                    } else {
                        assert(!is_word_char(s[i as int], w@.len() != 0));
                        assert(word_span(s, i as int, w@) == (w@, i as int));
                        break ;
                    }
                }
                proof {
                    lemma_word_span(s, i0, Seq::empty());
                }
                let t = crate::text::chars_to_string(&w);
                let ghost out0 = out@;
                proof {
                    lemma_tok_views_push(out0, Token::Term(t));
                }
                out.push(Token::Term(t));
                proof {
                    assert(tok_views(out@) == tok_views(out0).push(SpecTok::Term(w@)));
                    let rest = qlex_from(s, i as int);
                    assert(qlex_from(s, i0) == lex_glue(seq![SpecTok::Term(w@)], rest));
                    if rest is Ok {
                        assert(tok_views(out0) + (seq![SpecTok::Term(w@)] + rest->Ok_0) =~=
                            tok_views(out@) + rest->Ok_0);
                    }
                    assert(qlex(s) == lex_glue(tok_views(out@), qlex_from(s, i as int)));
                }
            } else {
                let space = crate::unicode::char_is_whitespace(c);
                if space {
                    loop
                        invariant
                            cs@ == s,
                            n == s.len(),
                            0 <= i0 <= i <= n,
                            space_span(s, i0) == space_span(s, i as int),
                        ensures
                            0 <= i0 <= i <= n,
                            space_span(s, i0) == i as int,
                        decreases n - i,
                    {
                        if i >= n {
                            assert(space_span(s, i as int) == i as int);
                            break ;
                        }
                        let sp2 = crate::unicode::char_is_whitespace(cs[i]);
                        if sp2 {
                            i += 1;
                        } else {
                            assert(space_span(s, i as int) == i as int);
                            break ;
                        }
                    }
                    proof {
                        lemma_space_span(s, i0);
                    }
                } else {
                    let digit = crate::text::char_is_ascii_digit(c);
                    if digit {
                        let ghost jend = digit_span(s, i0);
                        let (v, nexti) = match consume_number(cs, i) {
                            Ok(p) => p,
                            Err(e) => {
                                proof {
                                    assert(qlex_from(s, i0) == Err::<Seq<SpecTok>, QueryError>(
                                        QueryError::InvalidNumber,
                                    ));
                                }
                                return Err(e);
                            },
                        };
                        i = nexti;
                        let ghost out0 = out@;
                        proof {
                            lemma_tok_views_push(out0, Token::Number(v));
                        }
                        out.push(Token::Number(v));
                        proof {
                            assert(tok_views(out@) == tok_views(out0).push(
                                SpecTok::Number(v as nat),
                            ));
                            let rest = qlex_from(s, i as int);
                            assert(qlex_from(s, i0) == lex_glue(
                                seq![SpecTok::Number(v as nat)],
                                rest,
                            ));
                            if rest is Ok {
                                assert(tok_views(out0) + (seq![SpecTok::Number(v as nat)]
                                    + rest->Ok_0) =~= tok_views(out@) + rest->Ok_0);
                            }
                            assert(qlex(s) == lex_glue(tok_views(out@), qlex_from(s, i as int)));
                        }
                    } else {
                        let tok = match c {
                            '&' => Token::Ampersand,
                            '|' => Token::Pipe,
                            '!' => Token::Exclaim,
                            '(' => Token::LeftRoundBracket,
                            ')' => Token::RightRoundBracket,
                            '{' => Token::LeftCurlyBracket,
                            '}' => Token::RightCurlyBracket,
                            '>' => Token::GreaterThan,
                            '"' => Token::DoubleQuotes,
                            '\\' => Token::Backslash,
                            _ => {
                                assert(punct_tok(s[i as int]) is None);
                                return Err(QueryError::InvalidChar(c));
                            },
                        };
                        let ghost out0 = out@;
                        let ghost tv = tok_view(tok);
                        proof {
                            assert(punct_tok(s[i as int]) == Some(tv));
                            lemma_tok_views_push(out0, tok);
                        }
                        out.push(tok);
                        i += 1;
                        proof {
                            assert(tok_views(out@) == tok_views(out0).push(tv));
                            let rest = qlex_from(s, i as int);
                            assert(qlex_from(s, i0) == lex_glue(seq![tv], rest));
                            if rest is Ok {
                                assert(tok_views(out0) + (seq![tv] + rest->Ok_0) =~= tok_views(
                                    out@,
                                ) + rest->Ok_0);
                            }
                            assert(qlex(s) == lex_glue(tok_views(out@), qlex_from(s, i as int)));
                        }
                    }
                }
            }
        }
        proof {
            assert(qlex_from(s, n as int) == Ok::<Seq<SpecTok>, QueryError>(Seq::empty()));
            assert(tok_views(out@) + Seq::<SpecTok>::empty() =~= tok_views(out@));
        }
        Ok(out)
    }
}

/// The shunting-yard parser of the query language.
pub struct Parser {
    tokens: Vec<Token>,
}

impl Parser {
    /// The tokens to parse.
    pub closed spec fn view(&self) -> Seq<SpecTok> {
        tok_views(self.tokens@)
    }

    pub fn new(tokens: Vec<Token>) -> (r: Parser)
        ensures
            r@ == tok_views(tokens@),
    {
        Parser { tokens }
    }

    /// Pops one operand, which a unary operator consumes.
    fn pop_unary_operand(operand_stack: &mut Vec<LogicNode>) -> (r: Result<LogicNode, QueryError>)
        ensures
            old(operand_stack)@.len() == 0 ==> r == Err::<LogicNode, QueryError>(
                QueryError::MissingArgument,
            ),
            old(operand_stack)@.len() > 0 ==> ({
                &&& r is Ok
                &&& node_view(r->Ok_0) == node_views(old(operand_stack)@).last()
                &&& final(operand_stack)@ == old(operand_stack)@.drop_last()
            }),
    {
        proof {
            if old(operand_stack)@.len() > 0 {
                lemma_node_views_drop(old(operand_stack)@);
            }
        }
        match operand_stack.pop() {
            Some(n) => Ok(n),
            None => Err(QueryError::MissingArgument),
        }
    }

    /// Pops the two operands of a binary operator: the left one sits deeper
    /// in the stack than the right one.
    fn pop_binary_operand(operand_stack: &mut Vec<LogicNode>) -> (r: Result<
        (LogicNode, LogicNode),
        QueryError,
    >)
        ensures
            old(operand_stack)@.len() < 2 ==> r == Err::<(LogicNode, LogicNode), QueryError>(
                QueryError::MissingArgument,
            ),
            old(operand_stack)@.len() >= 2 ==> ({
                let ns = node_views(old(operand_stack)@);
                &&& r is Ok
                &&& node_view(r->Ok_0.0) == ns[ns.len() - 2]
                &&& node_view(r->Ok_0.1) == ns.last()
                &&& final(operand_stack)@ == old(operand_stack)@.drop_last().drop_last()
            }),
    {
        proof {
            if old(operand_stack)@.len() >= 2 {
                lemma_node_views_drop(old(operand_stack)@);
                lemma_node_views_drop(old(operand_stack)@.drop_last());
            }
        }
        let second = match Self::pop_unary_operand(operand_stack) {
            Ok(n) => n,
            Err(e) => {
                return Err(e);
            },
        };
        let first = match Self::pop_unary_operand(operand_stack) {
            Ok(n) => n,
            Err(e) => {
                return Err(e);
            },
        };
        Ok((first, second))
    }

    /// Pops the top operator and applies it to the operand stack.
    fn construct_operator(
        operator_stack: &mut Vec<Operator>,
        operand_stack: &mut Vec<LogicNode>,
    ) -> (r: Result<(), QueryError>)
        ensures
            ({
                let oops = op_views(old(operator_stack)@);
                let onodes = node_views(old(operand_stack)@);
                match r {
                    Ok(_) => {
                        &&& oops.len() > 0
                        &&& apply_one(oops.last(), onodes) is Ok
                        &&& op_views(final(operator_stack)@) == oops.drop_last()
                        &&& node_views(final(operand_stack)@) == apply_one(
                            oops.last(),
                            onodes,
                        )->Ok_0
                    },
                    Err(e) => if oops.len() == 0 {
                        e == QueryError::ExpectedOperator
                    } else {
                        apply_one(oops.last(), onodes) == Err::<Seq<SNode>, QueryError>(e)
                    },
                }
            }),
    {
        let ghost oops = op_views(old(operator_stack)@);
        let ghost onodes = node_views(old(operand_stack)@);
        proof {
            if old(operator_stack)@.len() > 0 {
                lemma_op_views_drop(old(operator_stack)@);
            }
        }
        let op = match operator_stack.pop() {
            Some(op) => op,
            None => {
                return Err(QueryError::ExpectedOperator);
            },
        };
        match op {
            Operator::And => {
                let (lhs, rhs) = match Self::pop_binary_operand(operand_stack) {
                    Ok(p) => p,
                    Err(e) => {
                        return Err(e);
                    },
                };
                let ghost rest = node_views(operand_stack@);
                let node = LogicNode::And(Box::new(lhs), Box::new(rhs));
                proof {
                    lemma_node_views_push(operand_stack@, node);
                    assert(onodes.drop_last().drop_last() =~= rest);
                }
                operand_stack.push(node);
            },
            Operator::Or => {
                let (lhs, rhs) = match Self::pop_binary_operand(operand_stack) {
                    Ok(p) => p,
                    Err(e) => {
                        return Err(e);
                    },
                };
                let ghost rest = node_views(operand_stack@);
                let node = LogicNode::Or(Box::new(lhs), Box::new(rhs));
                proof {
                    lemma_node_views_push(operand_stack@, node);
                    assert(onodes.drop_last().drop_last() =~= rest);
                }
                operand_stack.push(node);
            },
            Operator::Not => {
                let operand = match Self::pop_unary_operand(operand_stack) {
                    Ok(n) => n,
                    Err(e) => {
                        return Err(e);
                    },
                };
                let ghost rest = node_views(operand_stack@);
                let node = LogicNode::Not(Box::new(operand));
                proof {
                    lemma_node_views_push(operand_stack@, node);
                    lemma_node_views_drop(old(operand_stack)@);
                    assert(onodes.drop_last() =~= rest);
                }
                operand_stack.push(node);
            },
            Operator::Near(distance) => {
                let (lhs, rhs) = match Self::pop_binary_operand(operand_stack) {
                    Ok(p) => p,
                    Err(e) => {
                        return Err(e);
                    },
                };
                let ghost rest = node_views(operand_stack@);
                let node = LogicNode::Near(Box::new(lhs), Box::new(rhs), distance, distance);
                proof {
                    lemma_node_views_push(operand_stack@, node);
                    assert(onodes.drop_last().drop_last() =~= rest);
                }
                operand_stack.push(node);
            },
            Operator::Next => {
                let (lhs, rhs) = match Self::pop_binary_operand(operand_stack) {
                    Ok(p) => p,
                    Err(e) => {
                        return Err(e);
                    },
                };
                let ghost rest = node_views(operand_stack@);
                let node = LogicNode::Near(Box::new(lhs), Box::new(rhs), 0, 1);
                proof {
                    lemma_node_views_push(operand_stack@, node);
                    assert(onodes.drop_last().drop_last() =~= rest);
                }
                operand_stack.push(node);
            },
            Operator::Subtract => {
                let (lhs, rhs) = match Self::pop_binary_operand(operand_stack) {
                    Ok(p) => p,
                    Err(e) => {
                        return Err(e);
                    },
                };
                let ghost rest = node_views(operand_stack@);
                let node = LogicNode::Subtract(Box::new(lhs), Box::new(rhs));
                proof {
                    lemma_node_views_push(operand_stack@, node);
                    assert(onodes.drop_last().drop_last() =~= rest);
                }
                operand_stack.push(node);
            },
            Operator::LeftBracket => {
                return Err(QueryError::UnexpectedOperator);
            },
        }
        Ok(())
    }

    /// Parses the tokens into a query AST by the shunting-yard method, or
    /// reports the first structural fault.
    #[verifier::rlimit(80)]
    pub fn parse(self) -> (r: Result<LogicNode, QueryError>)
        ensures
            r is Ok <==> spec_parse(self@) is Ok,
            r matches Ok(nd) ==> spec_parse(self@) == Ok::<SNode, QueryError>(node_view(nd)),
            r matches Err(e) ==> spec_parse(self@) == Err::<SNode, QueryError>(e),
    {
        let ghost tv = tok_views(self.tokens@);
        let toks = &self.tokens;
        let n = toks.len();
        let mut operand_stack: Vec<LogicNode> = Vec::new();
        let mut operator_stack: Vec<Operator> = Vec::new();
        let mut i: usize = 0;
        proof {
            assert(op_views(operator_stack@) =~= Seq::<SOp>::empty());
            assert(node_views(operand_stack@) =~= Seq::<SNode>::empty());
            assert(tv.len() == n);
        }
        while i < n
            invariant
                tv == self@,
                toks@ == self.tokens@,
                tv == tok_views(toks@),
                n == toks@.len(),
                i <= n,
                spec_parse(tv) == parse_from(
                    tv,
                    i as int,
                    op_views(operator_stack@),
                    node_views(operand_stack@),
                ),
            decreases n - i,
        {
            let ghost i0 = i as int;
            let ghost ops0 = op_views(operator_stack@);
            let ghost nodes0 = node_views(operand_stack@);
            proof {
                assert(tv[i0] == tok_view(toks@[i0]));
            }
            match &toks[i] {
                Token::Term(t) => {
                    let node = LogicNode::Term(t.clone());
                    proof {
                        lemma_node_views_push(operand_stack@, node);
                    }
                    operand_stack.push(node);
                    i += 1;
                },
                Token::Ampersand | Token::Pipe | Token::Exclaim | Token::Backslash => {
                    let op = match Operator::from_token(&toks[i]) {
                        Some(op) => op,
                        None => {
                            assert(false);
                            return Err(QueryError::UnexpectedToken);
                        },
                    };
                    let p = op.precedence();
                    let ghost prec = sop_prec(op_view(op));
                    proof {
                        assert(parse_from(tv, i0, ops0, nodes0) == (match flush_ge(
                            ops0,
                            nodes0,
                            prec,
                        ) {
                            Ok(st) => parse_from(tv, i0 + 1, st.0.push(op_view(op)), st.1),
                            Err(e) => Err(e),
                        }));
                    }
                    loop
                        invariant
                            p == prec,
                            flush_ge(ops0, nodes0, prec) == flush_ge(
                                op_views(operator_stack@),
                                node_views(operand_stack@),
                                prec,
                            ),
                            spec_parse(tv) == parse_from(tv, i0, ops0, nodes0),
                            (parse_from(tv, i0, ops0, nodes0) == (match flush_ge(
                                ops0,
                                nodes0,
                                prec,
                            ) {
                                Ok(st) => parse_from(tv, i0 + 1, st.0.push(op_view(op)), st.1),
                                Err(e) => Err(e),
                            })),
                            tv == self@,
                        ensures
                            flush_ge(ops0, nodes0, prec) == Ok::<
                                (Seq<SOp>, Seq<SNode>),
                                QueryError,
                            >((op_views(operator_stack@), node_views(operand_stack@))),
                            spec_parse(tv) == parse_from(
                                tv,
                                i0 + 1,
                                op_views(operator_stack@).push(op_view(op)),
                                node_views(operand_stack@),
                            ),
                            tv == self@,
                            p == prec,
                        decreases operator_stack@.len(),
                    {
                        if operator_stack.len() == 0 {
                            break ;
                        }
                        let topp = operator_stack[operator_stack.len() - 1].precedence();
                        proof {
                            lemma_op_views_drop(operator_stack@);
                        }
                        if topp < p {
                            break ;
                        }
                        let ghost opsb = op_views(operator_stack@);
                        let ghost nodesb = node_views(operand_stack@);
                        match Self::construct_operator(&mut operator_stack, &mut operand_stack) {
                            Ok(_) => {},
                            Err(e) => {
                                proof {
                                    assert(flush_ge(opsb, nodesb, prec) == Err::<
                                        (Seq<SOp>, Seq<SNode>),
                                        QueryError,
                                    >(e));
                                    assert(parse_from(tv, i0, ops0, nodes0) == Err::<
                                        SNode,
                                        QueryError,
                                    >(e));
                                }
                                return Err(e);
                            },
                        }
                    }
                    proof {
                        lemma_op_views_push(operator_stack@, op);
                    }
                    operator_stack.push(op);
                    i += 1;
                },
                Token::LeftRoundBracket => {
                    proof {
                        lemma_op_views_push(operator_stack@, Operator::LeftBracket);
                    }
                    operator_stack.push(Operator::LeftBracket);
                    i += 1;
                },
                Token::RightRoundBracket => {
                    proof {
                        assert(parse_from(tv, i0, ops0, nodes0) == (match close_bracket(
                            ops0,
                            nodes0,
                        ) {
                            Ok(st) => parse_from(tv, i0 + 1, st.0, st.1),
                            Err(e) => Err(e),
                        }));
                    }
                    loop
                        invariant_except_break
                            close_bracket(ops0, nodes0) == close_bracket(
                                op_views(operator_stack@),
                                node_views(operand_stack@),
                            ),
                        invariant
                            spec_parse(tv) == parse_from(tv, i0, ops0, nodes0),
                            (parse_from(tv, i0, ops0, nodes0) == (match close_bracket(
                                ops0,
                                nodes0,
                            ) {
                                Ok(st) => parse_from(tv, i0 + 1, st.0, st.1),
                                Err(e) => Err(e),
                            })),
                            tv == self@,
                        ensures
                            close_bracket(ops0, nodes0) == Ok::<
                                (Seq<SOp>, Seq<SNode>),
                                QueryError,
                            >((op_views(operator_stack@), node_views(operand_stack@))),
                            spec_parse(tv) == parse_from(
                                tv,
                                i0 + 1,
                                op_views(operator_stack@),
                                node_views(operand_stack@),
                            ),
                            tv == self@,
                        decreases operator_stack@.len(),
                    {
                        if operator_stack.len() == 0 {
                            break ;
                        }
                        let is_lb = matches!(
                            operator_stack[operator_stack.len() - 1],
                            Operator::LeftBracket
                        );
                        proof {
                            lemma_op_views_drop(operator_stack@);
                        }
                        if is_lb {
                            operator_stack.pop();
                            break ;
                        }
                        let ghost opsb = op_views(operator_stack@);
                        let ghost nodesb = node_views(operand_stack@);
                        match Self::construct_operator(&mut operator_stack, &mut operand_stack) {
                            Ok(_) => {},
                            Err(e) => {
                                proof {
                                    assert(close_bracket(opsb, nodesb) == Err::<
                                        (Seq<SOp>, Seq<SNode>),
                                        QueryError,
                                    >(e));
                                    assert(parse_from(tv, i0, ops0, nodes0) == Err::<
                                        SNode,
                                        QueryError,
                                    >(e));
                                }
                                return Err(e);
                            },
                        }
                    }
                    i += 1;
                },
                Token::LeftCurlyBracket => {
                    if i + 1 < n {
                        let dist = match &toks[i + 1] {
                            Token::Number(k) => Some(*k),
                            _ => None,
                        };
                        proof {
                            assert(tv[i0 + 1] == tok_view(toks@[i0 + 1]));
                        }
                        match dist {
                            Some(k) => {
                                if i + 2 < n {
                                    let is_rc = matches!(&toks[i + 2], Token::RightCurlyBracket);
                                    proof {
                                        assert(tv[i0 + 2] == tok_view(toks@[i0 + 2]));
                                    }
                                    if is_rc {
                                        proof {
                                            lemma_op_views_push(
                                                operator_stack@,
                                                Operator::Near(k),
                                            );
                                        }
                                        operator_stack.push(Operator::Near(k));
                                        i += 3;
                                    } else {
                                        return Err(QueryError::ExpectedNearClose);
                                    }
                                } else {
                                    return Err(QueryError::ExpectedNearClose);
                                }
                            },
                            None => {
                                return Err(QueryError::ExpectedNearNumber);
                            },
                        }
                    } else {
                        return Err(QueryError::ExpectedNearNumber);
                    }
                },
                Token::GreaterThan => {
                    proof {
                        lemma_op_views_push(operator_stack@, Operator::Next);
                    }
                    operator_stack.push(Operator::Next);
                    i += 1;
                },
                Token::DoubleQuotes => {
                    let mut j = i + 1;
                    proof {
                        assert(parse_from(tv, i0, ops0, nodes0) == (match phrase(
                            tv,
                            i0 + 1,
                            ops0,
                            nodes0,
                        ) {
                            Ok(st) => parse_from(tv, st.0, st.1, st.2),
                            Err(e) => Err(e),
                        }));
                    }
                    loop
                        invariant_except_break
                            phrase(tv, i0 + 1, ops0, nodes0) == phrase(
                                tv,
                                j as int,
                                op_views(operator_stack@),
                                node_views(operand_stack@),
                            ),
                        invariant
                            toks@ == self.tokens@,
                            tv == tok_views(toks@),
                            n == toks@.len(),
                            0 <= i0,
                            i0 + 1 <= j,
                            j <= n,
                            (parse_from(tv, i0, ops0, nodes0) == (match phrase(
                                tv,
                                i0 + 1,
                                ops0,
                                nodes0,
                            ) {
                                Ok(st) => parse_from(tv, st.0, st.1, st.2),
                                Err(e) => Err(e),
                            })),
                            spec_parse(tv) == parse_from(tv, i0, ops0, nodes0),
                            tv == self@,
                        ensures
                            toks@ == self.tokens@,
                            n == toks@.len(),
                            j <= n,
                            phrase(tv, i0 + 1, ops0, nodes0) == Ok::<
                                (int, Seq<SOp>, Seq<SNode>),
                                QueryError,
                            >((j as int, op_views(operator_stack@), node_views(operand_stack@))),
                            spec_parse(tv) == parse_from(tv, i0, ops0, nodes0),
                            tv == self@,
                        decreases n - j,
                    {
                        if j >= n {
                            proof {
                                assert(phrase(
                                    tv,
                                    j as int,
                                    op_views(operator_stack@),
                                    node_views(operand_stack@),
                                ) == Err::<(int, Seq<SOp>, Seq<SNode>), QueryError>(
                                    QueryError::UnclosedPhrase,
                                ));
                                assert(parse_from(tv, i0, ops0, nodes0) == Err::<
                                    SNode,
                                    QueryError,
                                >(QueryError::UnclosedPhrase));
                            }
                            return Err(QueryError::UnclosedPhrase);
                        }
                        proof {
                            assert(tv[j as int] == tok_view(toks@[j as int]));
                        }
                        match &toks[j] {
                            Token::Term(t) => {
                                let node = LogicNode::Term(t.clone());
                                proof {
                                    lemma_node_views_push(operand_stack@, node);
                                }
                                operand_stack.push(node);
                                if j + 1 < n {
                                    let follows = matches!(&toks[j + 1], Token::Term(_));
                                    proof {
                                        assert(tv[j as int + 1] == tok_view(toks@[j as int + 1]));
                                    }
                                    if follows {
                                        proof {
                                            lemma_op_views_push(operator_stack@, Operator::Next);
                                        }
                                        operator_stack.push(Operator::Next);
                                    }
                                }
                                j += 1;
                            },
                            Token::DoubleQuotes => {
                                proof {
                                    assert(phrase(
                                        tv,
                                        j as int,
                                        op_views(operator_stack@),
                                        node_views(operand_stack@),
                                    ) == Ok::<(int, Seq<SOp>, Seq<SNode>), QueryError>(
                                        (
                                            j + 1,
                                            op_views(operator_stack@),
                                            node_views(operand_stack@),
                                        ),
                                    ));
                                }
                                j += 1;
                                break ;
                            },
                            _ => {
                                proof {
                                    assert(parse_from(tv, i0, ops0, nodes0) == Err::<
                                        SNode,
                                        QueryError,
                                    >(QueryError::PhraseToken));
                                }
                                return Err(QueryError::PhraseToken);
                            },
                        }
                    }
                    proof {
                        lemma_phrase_advances(tv, i0 + 1, ops0, nodes0);
                    }
                    i = j;
                },
                Token::Number(_) => {
                    return Err(QueryError::UnexpectedToken);
                },
                Token::RightCurlyBracket => {
                    return Err(QueryError::UnexpectedToken);
                },
            }
        }
        let ghost opsn = op_views(operator_stack@);
        let ghost nodesn = node_views(operand_stack@);
        loop
            invariant
                drain_ops(op_views(operator_stack@), node_views(operand_stack@)) == drain_ops(
                    opsn,
                    nodesn,
                ),
                spec_parse(tv) == parse_from(tv, n as int, opsn, nodesn),
                tv == self@,
                tv.len() == n,
            ensures
                operator_stack@.len() == 0,
                drain_ops(opsn, nodesn) == drain_ops(
                    op_views(operator_stack@),
                    node_views(operand_stack@),
                ),
                spec_parse(tv) == parse_from(tv, n as int, opsn, nodesn),
                tv == self@,
                tv.len() == n,
            decreases operator_stack@.len(),
        {
            if operator_stack.len() == 0 {
                break ;
            }
            proof {
                lemma_op_views_drop(operator_stack@);
            }
            let ghost opsb = op_views(operator_stack@);
            let ghost nodesb = node_views(operand_stack@);
            match Self::construct_operator(&mut operator_stack, &mut operand_stack) {
                Ok(_) => {},
                Err(e) => {
                    proof {
                        assert(drain_ops(opsb, nodesb) == Err::<SNode, QueryError>(e));
                    }
                    return Err(e);
                },
            }
        }
        proof {
            assert(op_views(operator_stack@) =~= Seq::<SOp>::empty());
        }
        if operand_stack.len() > 1 {
            proof {
                assert(drain_ops(op_views(operator_stack@), node_views(operand_stack@)) == Err::<
                    SNode,
                    QueryError,
                >(QueryError::MultipleExpressions));
            }
            return Err(QueryError::MultipleExpressions);
        }
        proof {
            if operand_stack@.len() > 0 {
                lemma_node_views_drop(operand_stack@);
            }
        }
        match operand_stack.pop() {
            Some(nd) => Ok(nd),
            None => Ok(LogicNode::False),
        }
    }
}

/// Parses a query text into its AST: lexing, then shunting-yard parsing.
pub fn parse_logic_expr(input: &str) -> (r: Result<LogicNode, QueryError>)
    ensures
        r is Ok <==> spec_parse_text(input@) is Ok,
        r matches Ok(nd) ==> spec_parse_text(input@) == Ok::<SNode, QueryError>(node_view(nd)),
        r matches Err(e) ==> spec_parse_text(input@) == Err::<SNode, QueryError>(e),
{
    let lexer = Lexer::new(input);
    let tokens = match lexer.lex() {
        Ok(ts) => ts,
        Err(e) => {
            return Err(e);
        },
    };
    let parser = Parser::new(tokens);
    parser.parse()
}

} // verus!
