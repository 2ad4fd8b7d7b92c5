//! Structural parser for tabula, a Clausewitz-style data format:
//!
//! ```text
//! legion = {
//!     name = "Legio I"        # comments run to end of line
//!     strength = 4800
//!     cohorts = { 1 2 3 }     # blocks can be array-like
//!     morale > 0.5            # comparison operators
//! }
//! legion = { name = "Legio II" }   # duplicate keys are legal
//! ```
//!
//! The parser is purely structural: keys, operators, atoms (scalars and
//! quoted strings), and nested blocks. No key has special meaning. Parsing
//! never fails: it always returns whatever tree could be recovered plus
//! every error met (up to a cap).

use vstd::prelude::*;
use crate::game::map_text::{utf8_width, string_of};
use crate::util::decimal::{decimal, format_u64};
use crate::util::text::string_push_str;

verus! {

/// What a node is. The zero value is `Atom`.
#[derive(Clone, Copy, PartialEq, Eq, Structural, Debug)]
pub enum Kind {
    /// Scalar or quoted string; the text is in `value`.
    Atom,
    /// `{ ... }`; contents are in `children`, `value` is empty.
    Block,
}

impl Default for Kind {
    fn default() -> (k: Kind)
        ensures
            k == Kind::Atom,
    {
        Kind::Atom
    }
}

/// Operator between key and value. The zero value `None` marks a bare value
/// with no key (an array element).
#[derive(Clone, Copy, PartialEq, Eq, Structural, Debug)]
pub enum Op {
    /// No operator: a bare value.
    Bare,
    /// `=`
    Eq,
    /// `<`
    Lt,
    /// `>`
    Gt,
    /// `<=`
    Le,
    /// `>=`
    Ge,
    /// `!=`
    Ne,
}

impl Default for Op {
    fn default() -> (o: Op)
        ensures
            o == Op::Bare,
    {
        Op::Bare
    }
}

/// What went wrong. The zero value is "no error".
#[derive(Clone, Copy, PartialEq, Eq, Structural, Debug)]
pub enum ErrorKind {
    NoError,
    UnexpectedChar,
    UnclosedString,
    UnclosedBlock,
    UnexpectedCloseBrace,
    ExpectedValue,
    TooDeep,
}

impl Default for ErrorKind {
    fn default() -> (k: ErrorKind)
        ensures
            k == ErrorKind::NoError,
    {
        ErrorKind::NoError
    }
}

/// A problem and where it sits in the source.
#[derive(Clone, Copy, PartialEq, Eq, Structural, Debug)]
pub struct ParseError {
    pub kind: ErrorKind,
    /// Byte offset into the source.
    pub offset: usize,
    /// 1-based.
    pub line: u32,
    /// 1-based, in bytes.
    pub col: u32,
}

/// The message a kind of error reads as.
pub open spec fn error_message(kind: ErrorKind) -> Seq<char> {
    match kind {
        ErrorKind::NoError => "no error"@,
        ErrorKind::UnexpectedChar => "unexpected character"@,
        ErrorKind::UnclosedString => "unclosed string"@,
        ErrorKind::UnclosedBlock => "unclosed block"@,
        ErrorKind::UnexpectedCloseBrace => "unexpected '}'"@,
        ErrorKind::ExpectedValue => "expected a value"@,
        ErrorKind::TooDeep => "blocks nested too deeply"@,
    }
}

/// How an error reads: "`line`:`col`: `message`".
pub open spec fn error_text(e: ParseError) -> Seq<char> {
    decimal(e.line as nat) + ":"@ + decimal(e.col as nat) + ": "@ + error_message(e.kind)
}

impl Default for ParseError {
    fn default() -> (e: ParseError)
        ensures
            e == (ParseError { kind: ErrorKind::NoError, offset: 0, line: 0, col: 0 }),
    {
        ParseError { kind: ErrorKind::NoError, offset: 0, line: 0, col: 0 }
    }
}

impl ParseError {
    /// "`line`:`col`: `message`".
    pub fn to_string(&self) -> (s: String)
        ensures
            s@ == error_text(*self),
    {
        let mut s = format_u64(self.line as u64);
        string_push_str(&mut s, ":");
        let col = format_u64(self.col as u64);
        string_push_str(&mut s, col.as_str());
        string_push_str(&mut s, ": ");
        let msg = match self.kind {
            ErrorKind::NoError => "no error",
            ErrorKind::UnexpectedChar => "unexpected character",
            ErrorKind::UnclosedString => "unclosed string",
            ErrorKind::UnclosedBlock => "unclosed block",
            ErrorKind::UnexpectedCloseBrace => "unexpected '}'",
            ErrorKind::ExpectedValue => "expected a value",
            ErrorKind::TooDeep => "blocks nested too deeply",
        };
        string_push_str(&mut s, msg);
        s
    }
}

// ----- Numbers: the text `f32::from_str` accepts -----

pub open spec fn is_ascii_digit(c: char) -> bool {
    '0' <= c && c <= '9'
}

pub open spec fn digits_only(t: Seq<char>) -> bool {
    forall|i: int| 0 <= i < t.len() ==> is_ascii_digit(#[trigger] t[i])
}

/// `t` is `a`, ignoring ASCII case.
pub open spec fn same_letters(t: Seq<char>, a: Seq<char>) -> bool {
    &&& t.len() == a.len()
    &&& forall|i: int| 0 <= i < t.len() ==> (#[trigger] t[i] == a[i] || t[i] as u32 + 32 == a[i] as u32)
}

/// A mantissa: digits with at most one `.`, and at least one digit.
pub open spec fn mantissa(t: Seq<char>) -> bool {
    ||| (t.len() > 0 && digits_only(t))
    ||| exists|d: int|
        0 <= d < t.len() && t[d] == '.' && t.len() > 1 && digits_only(t.take(d)) && digits_only(
            #[trigger] t.skip(d + 1),
        )
}

/// An exponent: nothing, or `e`/`E`, an optional sign, and digits.
pub open spec fn exponent(t: Seq<char>) -> bool {
    ||| t.len() == 0
    ||| (t.len() >= 2 && (t[0] == 'e' || t[0] == 'E') && (if t[1] == '+' || t[1] == '-' {
        t.len() >= 3 && digits_only(t.skip(2))
    } else {
        digits_only(t.skip(1))
    }))
}

/// `t` without a leading sign.
pub open spec fn unsigned_part(t: Seq<char>) -> Seq<char> {
    if t.len() > 0 && (t[0] == '+' || t[0] == '-') {
        t.skip(1)
    } else {
        t
    }
}

/// An unsigned number: `inf`, `infinity` or `nan` in any case, or a
/// mantissa and an optional exponent.
pub open spec fn number_body(body: Seq<char>) -> bool {
    ||| same_letters(body, "inf"@)
    ||| same_letters(body, "infinity"@)
    ||| same_letters(body, "nan"@)
    ||| exists|k: int|
        0 <= k <= body.len() && (forall|i: int| 0 <= i < k ==> body[i] != 'e' && body[i] != 'E') && mantissa(
            #[trigger] body.take(k),
        ) && exponent(body.skip(k))
}

/// Text `f32::from_str` reads as a number: an optional sign, then an
/// unsigned number.
pub open spec fn number_text(t: Seq<char>) -> bool {
    number_body(unsigned_part(t))
}

// ----- The tree -----

/// An atom's value: always the raw text, and whether an unquoted atom reads
/// as a number (quoted atoms never do). The zero value is empty text, no
/// number.
#[derive(Clone, PartialEq, Eq, Debug)]
pub struct Value {
    pub is_number: bool,
    pub text: String,
}

/// One fat struct covers every syntactic form; unused fields stay zero:
///
/// | form            | key   | op     | kind    | value.text | children |
/// |-----------------|-------|--------|---------|------------|----------|
/// | `a = 1`         | `"a"` | `Eq`   | `Atom`  | `"1"`      | empty    |
/// | `a = { ... }`   | `"a"` | `Eq`   | `Block` | `""`       | items    |
/// | `a > 5`         | `"a"` | `Gt`   | `Atom`  | `"5"`      | empty    |
/// | bare `1`        | `""`  | `None` | `Atom`  | `"1"`      | empty    |
/// | bare `{ ... }`  | `""`  | `None` | `Block` | `""`       | items    |
#[derive(Debug)]
pub struct Node {
    pub key: String,
    pub op: Op,
    pub kind: Kind,
    pub value: Value,
    pub children: Vec<Node>,
}

/// A node as plain data.
pub struct NodeView {
    pub key: Seq<char>,
    pub op: Op,
    pub kind: Kind,
    pub is_number: bool,
    pub text: Seq<char>,
    pub children: Seq<NodeView>,
}

/// A node read as plain data.
pub open spec fn view_node(n: Node) -> NodeView
    decreases n,
{
    NodeView {
        key: n.key@,
        op: n.op,
        kind: n.kind,
        is_number: n.value.is_number,
        text: n.value.text@,
        children: view_nodes(n.children@),
    }
}

/// Nodes read as plain data.
pub open spec fn view_nodes(ns: Seq<Node>) -> Seq<NodeView>
    decreases ns,
{
    if ns.len() == 0 {
        Seq::empty()
    } else {
        view_nodes(ns.drop_last()).push(view_node(ns.last()))
    }
}

/// What a parse gives: the recovered tree plus every error, in one flat
/// struct. The zero value is no roots, no errors.
#[derive(Debug)]
pub struct ParseResult {
    pub roots: Vec<Node>,
    pub errors: Vec<ParseError>,
}

// ----- The grammar over the source's characters -----

/// Past this nesting, a block is an error.
pub const MAX_DEPTH: u32 = 500;

/// Past this many errors the source is junk: stop and finish.
pub const MAX_ERRORS: usize = 100;

pub open spec fn is_trivia_space(c: char) -> bool {
    c == ' ' || c == '\t' || c == '\r' || c == '\n'
}

/// ASCII white space, as `u8::is_ascii_whitespace` has it.
pub open spec fn is_ascii_space(c: char) -> bool {
    c == ' ' || c == '\t' || c == '\n' || c == '\x0C' || c == '\r'
}

/// Characters that end a bare scalar.
pub open spec fn is_terminator(c: char) -> bool {
    ||| is_trivia_space(c)
    ||| c == '{' || c == '}' || c == '=' || c == '<' || c == '>' || c == '!' || c == '#' || c == '"'
}

/// Where white space and comments starting at `p` end; `in_comment` when
/// inside a comment, which runs through the next newline.
pub open spec fn skip_trivia_from(s: Seq<char>, p: int, in_comment: bool) -> int
    decreases s.len() - p,
{
    if p < 0 || p >= s.len() {
        p
    } else if in_comment {
        skip_trivia_from(s, p + 1, s[p] != '\n')
    } else if is_trivia_space(s[p]) {
        skip_trivia_from(s, p + 1, false)
    } else if s[p] == '#' {
        skip_trivia_from(s, p + 1, true)
    } else {
        p
    }
}

pub open spec fn skip_trivia(s: Seq<char>, p: int) -> int {
    skip_trivia_from(s, p, false)
}

/// The first position at or after `p` where `stop` holds, or the end.
pub open spec fn scan_until(s: Seq<char>, p: int, stop: spec_fn(char) -> bool) -> int
    decreases s.len() - p,
{
    if p < 0 || p >= s.len() {
        p
    } else if stop(s[p]) {
        p
    } else {
        scan_until(s, p + 1, stop)
    }
}

/// Where a bare scalar starting at `p` ends.
pub open spec fn scalar_end(s: Seq<char>, p: int) -> int {
    scan_until(s, p, |c: char| is_terminator(c))
}

/// Where the quote closing a string whose text starts at `p` sits (the end
/// of the source when there is none).
pub open spec fn string_end(s: Seq<char>, p: int) -> int {
    scan_until(s, p, |c: char| c == '"')
}

/// Where recovery from an error at `p` stops: the next white space or `}`.
pub open spec fn recover_end(s: Seq<char>, p: int) -> int {
    scan_until(s, p, |c: char| c == '}' || is_ascii_space(c))
}

/// Bytes, lines and columns before position `p`: (offset, line, col), the
/// column counting bytes.
pub open spec fn place_of(s: Seq<char>, p: int) -> (nat, nat, nat)
    decreases p,
{
    if p <= 0 || s.len() == 0 {
        (0, 1, 1)
    } else if p > s.len() {
        place_of(s, s.len() as int)
    } else {
        let (offset, line, col) = place_of(s, p - 1);
        let c = s[p - 1];
        if c == '\n' {
            (offset + 1, line + 1, 1)
        } else {
            (offset + utf8_width(c), line, col + utf8_width(c))
        }
    }
}

/// An error of `kind` at position `p`.
pub open spec fn error_at(s: Seq<char>, p: int, kind: ErrorKind) -> ParseError {
    let (offset, line, col) = place_of(s, p);
    ParseError { kind, offset: offset as usize, line: line as u32, col: col as u32 }
}

/// The parser's state: where it stands and the errors so far.
pub type State = (int, Seq<ParseError>);

/// Records `e`; at the error cap the parser skips to the end.
pub open spec fn push_error(s: Seq<char>, st: State, e: ParseError) -> State {
    let errors = st.1.push(e);
    (if errors.len() >= MAX_ERRORS { s.len() as int } else { st.0 }, errors)
}

pub open spec fn record(s: Seq<char>, st: State, kind: ErrorKind) -> State {
    push_error(s, st, error_at(s, st.0, kind))
}

/// An atom with text `text`.
pub open spec fn atom(text: Seq<char>, is_number: bool) -> NodeView {
    NodeView { key: Seq::empty(), op: Op::Bare, kind: Kind::Atom, is_number, text, children: Seq::empty() }
}

/// A block holding `children`.
pub open spec fn block(children: Seq<NodeView>) -> NodeView {
    NodeView { key: Seq::empty(), op: Op::Bare, kind: Kind::Block, is_number: false, text: Seq::empty(), children }
}

/// What stands at `p` where an operator may: the operator and its length,
/// nothing, or a lone `!`.
pub open spec fn op_at(s: Seq<char>, p: int) -> Option<Result<(Op, int), ()>> {
    let next_eq = 0 <= p + 1 < s.len() && s[p + 1] == '=';
    if p < 0 || p >= s.len() {
        None
    } else if s[p] == '=' {
        Some(Ok((Op::Eq, 1)))
    } else if s[p] == '<' {
        Some(Ok(if next_eq { (Op::Le, 2) } else { (Op::Lt, 1) }))
    } else if s[p] == '>' {
        Some(Ok(if next_eq { (Op::Ge, 2) } else { (Op::Gt, 1) }))
    } else if s[p] == '!' {
        if next_eq {
            Some(Ok((Op::Ne, 2)))
        } else {
            Some(Err(()))
        }
    } else {
        None
    }
}

/// How much source is left after `p`, for the recursion to count down.
pub open spec fn left(s: Seq<char>, p: int) -> nat {
    if p <= s.len() + 1 {
        (s.len() + 2 - p) as nat
    } else {
        0
    }
}

/// A keyless term at the state's position: an atom or a block.
pub open spec fn term(s: Seq<char>, st: State, depth: nat) -> (State, Result<NodeView, ParseError>)
    decreases left(s, st.0), 1nat,
{
    let p = st.0;
    if p < 0 || p >= s.len() || s[p] == '}' {
        (st, Err(error_at(s, p, ErrorKind::ExpectedValue)))
    } else if s[p] == '=' || s[p] == '<' || s[p] == '>' || s[p] == '!' {
        (st, Err(error_at(s, p, ErrorKind::UnexpectedChar)))
    } else if s[p] == '{' {
        if depth >= MAX_DEPTH {
            (st, Err(error_at(s, p, ErrorKind::TooDeep)))
        } else {
            let (inner, children) = items(s, (p + 1, st.1), depth + 1, Seq::empty());
            if 0 <= inner.0 < s.len() && s[inner.0] == '}' {
                ((inner.0 + 1, inner.1), Ok(block(children)))
            } else {
                (record(s, inner, ErrorKind::UnclosedBlock), Ok(block(children)))
            }
        }
    } else if s[p] == '"' {
        let q = string_end(s, p + 1);
        if q < s.len() {
            ((q + 1, st.1), Ok(atom(s.subrange(p + 1, q), false)))
        } else {
            ((q, st.1), Err(error_at(s, q, ErrorKind::UnclosedString)))
        }
    } else {
        let q = scalar_end(s, p);
        ((q, st.1), Ok(atom(s.subrange(p, q), number_text(s.subrange(p, q)))))
    }
}

/// `term (op term)?` — a keyed pair or a bare value.
pub open spec fn item(s: Seq<char>, st: State, depth: nat) -> (State, Result<NodeView, ParseError>)
    decreases left(s, st.0), 2nat,
{
    let (st1, first) = term(s, st, depth);
    match first {
        Err(e) => (st1, Err(e)),
        Ok(first) => if first.kind == Kind::Block {
            (st1, Ok(first))
        } else {
            let p2 = skip_trivia(s, st1.0);
            match op_at(s, p2) {
                None => ((p2, st1.1), Ok(first)),
                Some(Err(())) => ((p2, st1.1), Err(error_at(s, p2, ErrorKind::UnexpectedChar))),
                Some(Ok((op, n))) => {
                    let p3 = skip_trivia(s, p2 + n);
                    if st.0 <= p3 <= s.len() + 1 {
                        let (st4, value) = term(s, (p3, st1.1), depth);
                        match value {
                            Err(e) => (st4, Err(e)),
                            Ok(v) => (st4, Ok(NodeView { key: first.text, op, ..v })),
                        }
                    } else {
                        ((p3, st1.1), Ok(first))
                    }
                },
            }
        },
    }
}

/// Items from the state's position until the end or an unconsumed `}` (at
/// depth 0 a stray `}` is recorded and skipped instead), appended to `acc`.
/// An item's error is recorded and recovered from.
pub open spec fn items(s: Seq<char>, st: State, depth: nat, acc: Seq<NodeView>) -> (State, Seq<NodeView>)
    decreases left(s, st.0), 3nat,
{
    let p = skip_trivia(s, st.0);
    if p < 0 || p >= s.len() {
        ((p, st.1), acc)
    } else if s[p] == '}' {
        if depth > 0 {
            ((p, st.1), acc)
        } else {
            let recorded = record(s, (p, st.1), ErrorKind::UnexpectedCloseBrace);
            let next = (recorded.0 + 1, recorded.1);
            if st.0 < next.0 <= s.len() + 1 {
                items(s, next, depth, acc)
            } else {
                (next, acc)
            }
        }
    } else if st.0 <= p {
        let (st1, r) = item(s, (p, st.1), depth);
        let (next, acc2) = match r {
            Ok(n) => (st1, acc.push(n)),
            Err(e) => {
                let pushed = push_error(s, st1, e);
                ((recover_end(s, pushed.0), pushed.1), acc)
            },
        };
        if st.0 < next.0 <= s.len() + 1 {
            items(s, next, depth, acc2)
        } else {
            (next, acc2)
        }
    } else {
        ((p, st.1), acc)
    }
}

/// The parse of a whole source: its top-level items and every error.
pub open spec fn parse_spec(s: Seq<char>) -> (Seq<NodeView>, Seq<ParseError>) {
    let (st, roots) = items(s, (0, Seq::empty()), 0, Seq::empty());
    (roots, st.1)
}

/// A parse result read as plain data.
pub open spec fn view_result(r: Result<Node, ParseError>) -> Result<NodeView, ParseError> {
    match r {
        Ok(n) => Ok(view_node(n)),
        Err(e) => Err(e),
    }
}

/// A source the parser's 32-bit line and column counters can hold: under
/// 4 GiB.
pub open spec fn source_fits(s: Seq<char>) -> bool {
    place_of(s, s.len() as int).0 + 2 < u32::MAX
}

/// Offsets only grow, and lines and columns stay within them.
proof fn lemma_place_bounds(s: Seq<char>, p: int)
    requires
        0 <= p <= s.len(),
    ensures
        place_of(s, p).0 <= place_of(s, s.len() as int).0,
        place_of(s, p).1 <= place_of(s, p).0 + 1,
        place_of(s, p).2 <= place_of(s, p).0 + 1,
    decreases s.len() - p,
{
    lemma_place_line_col(s, p);
    if p < s.len() {
        lemma_place_bounds(s, p + 1);
    }
}

proof fn lemma_place_line_col(s: Seq<char>, p: int)
    requires
        0 <= p <= s.len(),
    ensures
        place_of(s, p).1 <= place_of(s, p).0 + 1,
        place_of(s, p).2 <= place_of(s, p).0 + 1,
        p <= place_of(s, p).0,
    decreases p,
{
    if p > 0 && s.len() > 0 {
        lemma_place_line_col(s, p - 1);
    }
}

/// A scan never moves back, and from inside the source stops inside it or
/// at its end.
proof fn lemma_scan_bounds(s: Seq<char>, p: int, stop: spec_fn(char) -> bool)
    ensures
        p <= scan_until(s, p, stop),
        0 <= p <= s.len() ==> scan_until(s, p, stop) <= s.len(),
        0 <= p < s.len() && !stop(s[p]) ==> scan_until(s, p, stop) == scan_until(s, p + 1, stop),
        0 <= p < s.len() && stop(s[p]) ==> scan_until(s, p, stop) == p,
    decreases s.len() - p,
{
    if 0 <= p < s.len() && !stop(s[p]) {
        lemma_scan_bounds(s, p + 1, stop);
    }
}

/// Skipping trivia never moves back, and from inside the source stops
/// inside it or at its end.
proof fn lemma_skip_bounds(s: Seq<char>, p: int, in_comment: bool)
    ensures
        p <= skip_trivia_from(s, p, in_comment),
        0 <= p <= s.len() ==> skip_trivia_from(s, p, in_comment) <= s.len(),
    decreases s.len() - p,
{
    if 0 <= p < s.len() {
        if in_comment {
            lemma_skip_bounds(s, p + 1, s[p] != '\n');
        } else if is_trivia_space(s[p]) {
            lemma_skip_bounds(s, p + 1, false);
        } else if s[p] == '#' {
            lemma_skip_bounds(s, p + 1, true);
        }
    }
}

/// Whether `c` ends a bare scalar.
fn terminates_scalar(c: char) -> (b: bool)
    ensures
        b == is_terminator(c),
{
    c == ' ' || c == '\t' || c == '\r' || c == '\n' || c == '{' || c == '}' || c == '=' || c == '<' || c == '>'
        || c == '!' || c == '#' || c == '"'
}

proof fn lemma_view_nodes_push(ns: Seq<Node>, n: Node)
    ensures
        view_nodes(ns.push(n)) == view_nodes(ns).push(view_node(n)),
{
    assert(ns.push(n).drop_last() =~= ns);
}

/// The recursive-descent parser's cursor over the source characters.
struct Parser {
    text: Vec<char>,
    pos: usize,
    errors: Vec<ParseError>,
}

impl Parser {
    spec fn state(&self) -> State {
        (self.pos as int, self.errors@)
    }

    spec fn ok(&self) -> bool {
        &&& self.pos <= self.text@.len() + 1
        &&& source_fits(self.text@)
        &&& self.text@.len() + 2 < usize::MAX
    }

    /// The error of `kind` at the cursor.
    fn error(&self, kind: ErrorKind) -> (e: ParseError)
        requires
            self.ok(),
        ensures
            e == error_at(self.text@, self.pos as int, kind),
    {
        let ghost s = self.text@;
        let end = if self.pos < self.text.len() { self.pos } else { self.text.len() };
        let mut offset: u64 = 0;
        let mut line: u64 = 1;
        let mut col: u64 = 1;
        let mut i: usize = 0;
        proof {
            lemma_place_bounds(s, 0);
        }
        while i < end
            invariant
                end <= s.len(),
                s == self.text@,
                source_fits(s),
                i <= end,
                (offset as nat, line as nat, col as nat) == place_of(s, i as int),
                offset <= place_of(s, s.len() as int).0,
            decreases end - i,
        {
            let c = self.text[i];
            proof {
                lemma_place_bounds(s, i + 1);
            }
            if c == '\n' {
                offset = offset + 1;
                line = line + 1;
                col = 1;
            } else {
                let w = crate::game::map_text::utf8_width_of(c) as u64;
                offset = offset + w;
                col = col + w;
            }
            i = i + 1;
        }
        proof {
            lemma_place_bounds(s, end as int);
            if self.pos > s.len() {
                assert(place_of(s, self.pos as int) == place_of(s, s.len() as int));
            }
        }
        ParseError { kind, offset: offset as usize, line: line as u32, col: col as u32 }
    }

    /// Records `e`; at the error cap the cursor skips to the end.
    fn push_error(&mut self, e: ParseError)
        requires
            old(self).ok(),
        ensures
            final(self).ok(),
            final(self).text == old(self).text,
            final(self).state() == push_error(old(self).text@, old(self).state(), e),
    {
        self.errors.push(e);
        if self.errors.len() >= MAX_ERRORS {
            self.pos = self.text.len();
        }
    }

    fn record(&mut self, kind: ErrorKind)
        requires
            old(self).ok(),
        ensures
            final(self).ok(),
            final(self).text == old(self).text,
            final(self).state() == record(old(self).text@, old(self).state(), kind),
    {
        let e = self.error(kind);
        self.push_error(e);
    }

    /// Skips white space and comments.
    fn skip_trivia(&mut self)
        requires
            old(self).ok(),
        ensures
            final(self).ok(),
            final(self).text == old(self).text,
            final(self).errors == old(self).errors,
            final(self).pos == skip_trivia(old(self).text@, old(self).pos as int),
            old(self).pos <= final(self).pos,
    {
        proof {
            lemma_skip_bounds(self.text@, self.pos as int, false);
        }
        let ghost s = self.text@;
        let ghost start = self.pos as int;
        let mut in_comment = false;
        while self.pos < self.text.len()
            invariant
                self.ok(),
                s == self.text@,
                self.errors == old(self).errors,
                self.text == old(self).text,
                start == old(self).pos as int,
                start <= self.pos,
                skip_trivia_from(s, self.pos as int, in_comment) == skip_trivia(s, start),
            decreases s.len() - self.pos,
        {
            let c = self.text[self.pos];
            if in_comment {
                in_comment = c != '\n';
            } else if c == ' ' || c == '\t' || c == '\r' || c == '\n' {
            } else if c == '#' {
                in_comment = true;
            } else {
                assert(!is_trivia_space(s[self.pos as int]) && s[self.pos as int] != '#');
                assert(skip_trivia_from(s, self.pos as int, false) == self.pos as int);
                return;
            }
            self.pos = self.pos + 1;
        }
    }

    /// The text between two positions.
    fn text_between(&self, p: usize, q: usize) -> (t: Vec<char>)
        requires
            p <= q <= self.text@.len(),
        ensures
            t@ == self.text@.subrange(p as int, q as int),
    {
        let mut t: Vec<char> = Vec::new();
        let mut i = p;
        while i < q
            invariant
                p <= i <= q <= self.text@.len(),
                t@ == self.text@.subrange(p as int, i as int),
            decreases q - i,
        {
            t.push(self.text[i]);
            assert(t@ =~= self.text@.subrange(p as int, i + 1));
            i = i + 1;
        }
        t
    }

    /// Moves the cursor to the end of the bare scalar it stands on.
    fn scan_scalar(&mut self)
        requires
            old(self).ok(),
            old(self).pos <= old(self).text@.len(),
        ensures
            final(self).ok(),
            final(self).text == old(self).text,
            final(self).errors == old(self).errors,
            final(self).pos == scalar_end(old(self).text@, old(self).pos as int),
            final(self).pos <= final(self).text@.len(),
            old(self).pos <= final(self).pos,
    {
        let ghost s = self.text@;
        let ghost start = self.pos as int;
        proof {
            lemma_scan_bounds(s, start, |c: char| is_terminator(c));
        }
        while self.pos < self.text.len()
            invariant
                self.ok(),
                s == self.text@,
                self.text == old(self).text,
                self.errors == old(self).errors,
                self.pos <= s.len(),
                scalar_end(s, self.pos as int) == scalar_end(s, start),
                start == old(self).pos as int,
                start <= self.pos,
            decreases s.len() - self.pos,
        {
            proof {
                lemma_scan_bounds(s, self.pos as int, |c: char| is_terminator(c));
            }
            if terminates_scalar(self.text[self.pos]) {
                return;
            }
            self.pos = self.pos + 1;
        }
    }

    /// Moves the cursor to the quote that closes the string it stands in,
    /// or to the end.
    fn scan_string(&mut self)
        requires
            old(self).ok(),
            old(self).pos <= old(self).text@.len(),
        ensures
            final(self).ok(),
            final(self).text == old(self).text,
            final(self).errors == old(self).errors,
            final(self).pos == string_end(old(self).text@, old(self).pos as int),
            final(self).pos <= final(self).text@.len(),
            old(self).pos <= final(self).pos,
    {
        let ghost s = self.text@;
        let ghost start = self.pos as int;
        proof {
            lemma_scan_bounds(s, start, |c: char| c == '"');
        }
        while self.pos < self.text.len()
            invariant
                self.ok(),
                s == self.text@,
                self.text == old(self).text,
                self.errors == old(self).errors,
                self.pos <= s.len(),
                string_end(s, self.pos as int) == string_end(s, start),
                start == old(self).pos as int,
                start <= self.pos,
            decreases s.len() - self.pos,
        {
            proof {
                lemma_scan_bounds(s, self.pos as int, |c: char| c == '"');
            }
            if self.text[self.pos] == '"' {
                return;
            }
            self.pos = self.pos + 1;
        }
    }

    /// Skips past the offending input so parsing can go on: to the next
    /// white space or `}`, never consuming the `}`, which may close an
    /// enclosing block.
    fn recover(&mut self)
        requires
            old(self).ok(),
        ensures
            final(self).ok(),
            final(self).text == old(self).text,
            final(self).errors == old(self).errors,
            final(self).pos == recover_end(old(self).text@, old(self).pos as int),
            old(self).pos <= final(self).pos,
    {
        let ghost s = self.text@;
        let ghost start = self.pos as int;
        proof {
            lemma_scan_bounds(s, start, |c: char| c == '}' || is_ascii_space(c));
        }
        while self.pos < self.text.len()
            invariant
                self.ok(),
                s == self.text@,
                self.text == old(self).text,
                self.errors == old(self).errors,
                recover_end(s, self.pos as int) == recover_end(s, start),
                start == old(self).pos as int,
                start <= self.pos,
            decreases s.len() - self.pos,
        {
            let c = self.text[self.pos];
            proof {
                lemma_scan_bounds(s, self.pos as int, |c: char| c == '}' || is_ascii_space(c));
            }
            if c == '}' || c == ' ' || c == '\t' || c == '\n' || c == '\x0C' || c == '\r' {
                return;
            }
            self.pos = self.pos + 1;
        }
    }

    /// Reads an operator at the cursor, if one stands there.
    fn try_op(&mut self) -> (r: Result<Option<Op>, ParseError>)
        requires
            old(self).ok(),
        ensures
            final(self).ok(),
            final(self).text == old(self).text,
            final(self).errors == old(self).errors,
            ({
                let s = old(self).text@;
                let p = old(self).pos as int;
                match op_at(s, p) {
                    None => r == Ok::<Option<Op>, ParseError>(None) && final(self).pos == p,
                    Some(Err(())) => r == Err::<Option<Op>, ParseError>(error_at(s, p, ErrorKind::UnexpectedChar))
                        && final(self).pos == p,
                    Some(Ok((op, n))) => r == Ok::<Option<Op>, ParseError>(Some(op)) && final(self).pos == p + n,
                }
            }),
    {
        if self.pos >= self.text.len() {
            return Ok(None);
        }
        let c = self.text[self.pos];
        let next_eq = self.pos + 1 < self.text.len() && self.text[self.pos + 1] == '=';
        let (op, n): (Op, usize) = if c == '=' {
            (Op::Eq, 1)
        } else if c == '<' {
            if next_eq { (Op::Le, 2) } else { (Op::Lt, 1) }
        } else if c == '>' {
            if next_eq { (Op::Ge, 2) } else { (Op::Gt, 1) }
        } else if c == '!' {
            if next_eq {
                (Op::Ne, 2)
            } else {
                return Err(self.error(ErrorKind::UnexpectedChar));
            }
        } else {
            return Ok(None);
        };
        self.pos = self.pos + n;
        Ok(Some(op))
    }

    /// A keyless term: an atom or a block.
    fn parse_term(&mut self, depth: u32) -> (r: Result<Node, ParseError>)
        requires
            old(self).ok(),
            depth <= MAX_DEPTH,
        ensures
            final(self).ok(),
            final(self).text == old(self).text,
            old(self).pos <= final(self).pos,
            (final(self).state(), view_result(r)) == term(old(self).text@, old(self).state(), depth as nat),
        decreases left(old(self).text@, old(self).pos as int), 1nat,
    {
        let ghost s = self.text@;
        if self.pos >= self.text.len() {
            return Err(self.error(ErrorKind::ExpectedValue));
        }
        let c = self.text[self.pos];
        if c == '}' {
            Err(self.error(ErrorKind::ExpectedValue))
        } else if c == '=' || c == '<' || c == '>' || c == '!' {
            Err(self.error(ErrorKind::UnexpectedChar))
        } else if c == '{' {
            if depth >= MAX_DEPTH {
                return Err(self.error(ErrorKind::TooDeep));
            }
            self.pos = self.pos + 1;
            let children = self.parse_items(depth + 1);
            if self.pos < self.text.len() && self.text[self.pos] == '}' {
                self.pos = self.pos + 1;
            } else {
                self.record(ErrorKind::UnclosedBlock);
            }
            let node = Node {
                key: String::new(),
                op: Op::Bare,
                kind: Kind::Block,
                value: Value { is_number: false, text: String::new() },
                children,
            };
            assert(view_node(node) == block(view_nodes(node.children@)));
            Ok(node)
        } else if c == '"' {
            self.pos = self.pos + 1;
            let start = self.pos;
            self.scan_string();
            if self.pos < self.text.len() {
                let chars = self.text_between(start, self.pos);
                self.pos = self.pos + 1;
                let node = Node {
                    key: String::new(),
                    op: Op::Bare,
                    kind: Kind::Atom,
                    value: Value { is_number: false, text: string_of(&chars) },
                    children: Vec::new(),
                };
                assert(view_nodes(node.children@) == Seq::<NodeView>::empty());
                Ok(node)
            } else {
                Err(self.error(ErrorKind::UnclosedString))
            }
        } else {
            let start = self.pos;
            self.scan_scalar();
            let chars = self.text_between(start, self.pos);
            let is_number = is_number_text(&chars);
            let node = Node {
                key: String::new(),
                op: Op::Bare,
                kind: Kind::Atom,
                value: Value { is_number, text: string_of(&chars) },
                children: Vec::new(),
            };
            assert(view_nodes(node.children@) == Seq::<NodeView>::empty());
            Ok(node)
        }
    }

    /// `term (op term)?`: a keyed pair or a bare value.
    fn parse_item(&mut self, depth: u32) -> (r: Result<Node, ParseError>)
        requires
            old(self).ok(),
            depth <= MAX_DEPTH,
        ensures
            final(self).ok(),
            final(self).text == old(self).text,
            old(self).pos <= final(self).pos,
            (final(self).state(), view_result(r)) == item(old(self).text@, old(self).state(), depth as nat),
        decreases left(old(self).text@, old(self).pos as int), 2nat,
    {
        let ghost s = self.text@;
        let ghost st = self.state();
        let first = match self.parse_term(depth) {
            Err(e) => {
                return Err(e);
            },
            Ok(first) => first,
        };
        if first.kind == Kind::Block {
            return Ok(first);
        }
        self.skip_trivia();
        let ghost p2 = self.pos as int;
        let op = match self.try_op() {
            Err(e) => {
                return Err(e);
            },
            Ok(None) => {
                return Ok(first);
            },
            Ok(Some(op)) => op,
        };
        self.skip_trivia();
        let value = match self.parse_term(depth) {
            Err(e) => {
                return Err(e);
            },
            Ok(value) => value,
        };
        let node = Node {
            key: first.value.text,
            op,
            kind: value.kind,
            value: value.value,
            children: value.children,
        };
        Ok(node)
    }

    /// Items until the end or an unconsumed `}` (at depth 0 a stray `}` is
    /// recorded and skipped instead). An item's error is recorded and
    /// recovered from.
    fn parse_items(&mut self, depth: u32) -> (nodes: Vec<Node>)
        requires
            old(self).ok(),
            depth <= MAX_DEPTH,
        ensures
            final(self).ok(),
            final(self).text == old(self).text,
            old(self).pos <= final(self).pos,
            (final(self).state(), view_nodes(nodes@)) == items(
                old(self).text@,
                old(self).state(),
                depth as nat,
                Seq::empty(),
            ),
        decreases left(old(self).text@, old(self).pos as int), 3nat,
    {
        let ghost s = self.text@;
        let ghost goal = items(s, self.state(), depth as nat, Seq::empty());
        let mut nodes: Vec<Node> = Vec::new();
        loop
            invariant
                self.ok(),
                s == self.text@,
                self.text == old(self).text,
                old(self).pos <= self.pos,
                depth <= MAX_DEPTH,
                items(s, self.state(), depth as nat, view_nodes(nodes@)) == goal,
                goal == items(old(self).text@, old(self).state(), depth as nat, Seq::empty()),
            decreases left(s, self.pos as int),
        {
            let start = self.pos;
            let ghost acc = view_nodes(nodes@);
            let ghost errs = self.errors@;
            self.skip_trivia();
            if self.pos >= self.text.len() {
                return nodes;
            }
            if self.text[self.pos] == '}' {
                if depth > 0 {
                    return nodes;
                }
                self.record(ErrorKind::UnexpectedCloseBrace);
                self.pos = self.pos + 1;
            } else {
                match self.parse_item(depth) {
                    Ok(node) => {
                        let ghost before = nodes@;
                        nodes.push(node);
                        proof {
                            lemma_view_nodes_push(before, nodes@.last());
                            assert(before.push(nodes@.last()) =~= nodes@);
                        }
                    },
                    Err(e) => {
                        self.push_error(e);
                        self.recover();
                    },
                }
            }
            if self.pos <= start {
                return nodes;
            }
        }
    }
}

/// What a mantissa is made of: digits and at most one `.`, with a digit.
proof fn lemma_mantissa_shape(m: Seq<char>)
    ensures
        mantissa(m) <==> ((forall|i: int| 0 <= i < m.len() ==> is_ascii_digit(#[trigger] m[i]) || m[i] == '.')
            && (forall|i: int, j: int| 0 <= i < j < m.len() && #[trigger] m[i] == '.' ==> #[trigger] m[j] != '.')
            && (exists|i: int| 0 <= i < m.len() && is_ascii_digit(#[trigger] m[i]))),
{
    let shape = (forall|i: int| 0 <= i < m.len() ==> is_ascii_digit(#[trigger] m[i]) || m[i] == '.')
        && (forall|i: int, j: int| 0 <= i < j < m.len() && #[trigger] m[i] == '.' ==> #[trigger] m[j] != '.')
        && (exists|i: int| 0 <= i < m.len() && is_ascii_digit(#[trigger] m[i]));
    if mantissa(m) {
        if m.len() > 0 && digits_only(m) {
            assert(is_ascii_digit(m[0]));
        } else {
            let d = choose|d: int|
                0 <= d < m.len() && m[d] == '.' && m.len() > 1 && digits_only(m.take(d)) && digits_only(
                    #[trigger] m.skip(d + 1),
                );
            assert forall|i: int| 0 <= i < m.len() implies is_ascii_digit(#[trigger] m[i]) || m[i] == '.' by {
                if i < d {
                    assert(m.take(d)[i] == m[i]);
                } else if i > d {
                    assert(m.skip(d + 1)[i - d - 1] == m[i]);
                }
            }
            assert forall|i: int, j: int| 0 <= i < j < m.len() && #[trigger] m[i] == '.' implies #[trigger] m[j] != '.' by {
                if i < d {
                    assert(m.take(d)[i] == m[i]);
                } else if i > d {
                    assert(m.skip(d + 1)[i - d - 1] == m[i]);
                } else {
                    assert(m.skip(d + 1)[j - d - 1] == m[j]);
                }
            }
            if d > 0 {
                assert(m.take(d)[0] == m[0]);
                assert(is_ascii_digit(m[0]));
            } else {
                assert(m.skip(d + 1)[0] == m[1]);
                assert(is_ascii_digit(m[1]));
            }
        }
    }
    if shape {
        if exists|d: int| 0 <= d < m.len() && m[d] == '.' {
            let d = choose|d: int| 0 <= d < m.len() && m[d] == '.';
            assert forall|i: int| 0 <= i < m.take(d).len() implies is_ascii_digit(#[trigger] m.take(d)[i]) by {
                assert(m.take(d)[i] == m[i]);
                assert(m[i] != '.');
            }
            assert forall|i: int| 0 <= i < m.skip(d + 1).len() implies is_ascii_digit(#[trigger] m.skip(d + 1)[i]) by {
                assert(m.skip(d + 1)[i] == m[i + d + 1]);
                assert(m[d] == '.');
            }
            let w = choose|i: int| 0 <= i < m.len() && is_ascii_digit(#[trigger] m[i]);
            assert(w != d);
            assert(m.len() > 1);
            assert(digits_only(m.skip(d + 1)));
        } else {
            assert(digits_only(m));
        }
    }
}

/// Whether the characters of `t` from `start` read as `word`, ignoring
/// ASCII case.
fn letters_match(t: &Vec<char>, start: usize, word: &str) -> (b: bool)
    requires
        start <= t@.len(),
    ensures
        b == same_letters(t@.skip(start as int), word@),
{
    let w = crate::util::decimal::chars_of(word);
    if t.len() - start != w.len() {
        return false;
    }
    let mut i: usize = 0;
    while i < w.len()
        invariant
            start <= t.len(),
            t.len() - start == w@.len(),
            w@ == word@,
            i <= w@.len(),
            forall|j: int| 0 <= j < i ==> (#[trigger] t@.skip(start as int)[j] == w@[j] || t@.skip(start as int)[j] as u32 + 32 == w@[j] as u32),
        decreases w@.len() - i,
    {
        let c = t[start + i];
        let a = w[i];
        assert(t@.skip(start as int)[i as int] == c);
        if !(c == a || ((a as u32) >= 32 && (c as u32) == (a as u32) - 32)) {
            return false;
        }
        i = i + 1;
    }
    true
}

/// No split point of `body` gives a mantissa followed by an exponent.
pub open spec fn no_number_split(body: Seq<char>) -> bool {
    forall|k: int|
        0 <= k <= body.len() && (forall|x: int| 0 <= x < k ==> body[x] != 'e' && body[x] != 'E')
            && #[trigger] mantissa(body.take(k)) ==> !exponent(body.skip(k))
}

/// Scans the mantissa of `t` from `start` up to the first `e`/`E`: where it
/// stops, and whether what it passed is a mantissa. When it is not, no split
/// of the text from `start` reads as a number.
fn scan_mantissa(t: &Vec<char>, start: usize) -> (r: (usize, bool))
    requires
        start <= t@.len(),
    ensures
        start <= r.0 <= t@.len(),
        forall|j: int| start <= j < r.0 ==> #[trigger] t@[j] != 'e' && t@[j] != 'E',
        r.1 ==> (r.0 == t@.len() || t@[r.0 as int] == 'e' || t@[r.0 as int] == 'E') && mantissa(t@.subrange(start as int, r.0 as int)),
        !r.1 ==> no_number_split(t@.skip(start as int)),
{
    let ghost body = t@.skip(start as int);
    let mut i: usize = start;
    let mut valid = true;
    let mut has_digit = false;
    let mut dot = false;
    let mut dot_at: usize = 0;
    while valid && i < t.len() && t[i] != 'e' && t[i] != 'E'
        invariant
            start <= i <= t@.len(),
            forall|j: int| start <= j < i ==> #[trigger] t@[j] != 'e' && t@[j] != 'E',
            forall|j: int| start <= j < i ==> is_ascii_digit(#[trigger] t@[j]) || t@[j] == '.',
            dot ==> start <= dot_at < i && t@[dot_at as int] == '.',
            forall|j: int| start <= j < i && #[trigger] t@[j] == '.' ==> dot && j == dot_at,
            has_digit <==> exists|j: int| start <= j < i && is_ascii_digit(#[trigger] t@[j]),
            !valid ==> i < t@.len() && t@[i as int] != 'e' && t@[i as int] != 'E' && !is_ascii_digit(t@[i as int])
                && (t@[i as int] != '.' || dot),
        decreases t@.len() - i, if valid { 1int } else { 0int },
    {
        let c = t[i];
        if '0' <= c && c <= '9' {
            has_digit = true;
            i = i + 1;
        } else if c == '.' && !dot {
            dot = true;
            dot_at = i;
            i = i + 1;
        } else {
            valid = false;
        }
    }
    let ghost r = (i - start) as int;
    let ghost m = t@.subrange(start as int, i as int);
    assert(m =~= body.take(r));
    proof {
        assert forall|j: int| 0 <= j < m.len() implies #[trigger] m[j] == t@[start + j] by {}
        lemma_mantissa_shape(m);
    }
    if !valid {
        proof {
            assert forall|k: int|
                0 <= k <= body.len() && (forall|x: int| 0 <= x < k ==> body[x] != 'e' && body[x] != 'E')
                    && #[trigger] mantissa(body.take(k)) implies !exponent(body.skip(k)) by {
                if k <= r {
                    assert(body.skip(k)[0] == t@[start + k]);
                } else {
                    let mk = body.take(k);
                    lemma_mantissa_shape(mk);
                    assert(mk[r] == t@[i as int]);
                    if t@[i as int] == '.' {
                        assert(mk[dot_at - start] == '.');
                    }
                }
            }
        }
        return (i, false);
    }
    if !has_digit {
        proof {
            assert forall|k: int|
                0 <= k <= body.len() && (forall|x: int| 0 <= x < k ==> body[x] != 'e' && body[x] != 'E')
                    && #[trigger] mantissa(body.take(k)) implies !exponent(body.skip(k)) by {
                if k < r {
                    assert(body.skip(k)[0] == t@[start + k]);
                } else if k > r {
                    assert(body[r] == t@[i as int]);
                } else {
                    assert forall|j: int| 0 <= j < m.len() implies !is_ascii_digit(#[trigger] m[j]) by {
                        assert(m[j] == t@[start + j]);
                    }
                }
            }
        }
        return (i, false);
    }
    proof {
        assert forall|j: int| 0 <= j < m.len() implies is_ascii_digit(#[trigger] m[j]) || m[j] == '.' by {
            assert(m[j] == t@[start + j]);
        }
        assert forall|a: int, b2: int| 0 <= a < b2 < m.len() && #[trigger] m[a] == '.' implies #[trigger] m[b2] != '.' by {
            assert(m[a] == t@[start + a]);
            assert(m[b2] == t@[start + b2]);
        }
        let w = choose|j: int| start <= j < i && is_ascii_digit(#[trigger] t@[j]);
        assert(m[w - start] == t@[w]);
    }
    (i, true)
}

/// Whether `t` from `i`, which holds an `e` or `E`, is an exponent.
fn scan_exponent(t: &Vec<char>, i: usize) -> (b: bool)
    requires
        i < t@.len(),
        t@[i as int] == 'e' || t@[i as int] == 'E',
    ensures
        b == exponent(t@.skip(i as int)),
{
    let ghost e = t@.skip(i as int);
    assert(i < t.len());
    let mut j: usize = i + 1;
    if j < t.len() && (t[j] == '+' || t[j] == '-') {
        j = j + 1;
    }
    if j >= t.len() {
        return false;
    }
    let digits_from = j;
    let mut all = true;
    while j < t.len()
        invariant
            i < digits_from <= j <= t@.len(),
            all <==> forall|x: int| digits_from <= x < j ==> is_ascii_digit(#[trigger] t@[x]),
        decreases t@.len() - j,
    {
        if !('0' <= t[j] && t[j] <= '9') {
            all = false;
        }
        j = j + 1;
    }
    proof {
        let skip = (digits_from - i) as int;
        assert(e[0] == t@[i as int]);
        assert(skip == 1 || (skip == 2 && (e[1] == '+' || e[1] == '-')));
        assert(skip == 1 ==> !(e[1] == '+' || e[1] == '-'));
        assert forall|x: int| 0 <= x < e.skip(skip).len() implies #[trigger] e.skip(skip)[x] == t@[digits_from + x] by {}
        if !all {
            let bad = choose|x: int| digits_from <= x < t@.len() && !is_ascii_digit(#[trigger] t@[x]);
            assert(e.skip(skip)[bad - digits_from] == t@[bad]);
        }
    }
    all
}

/// Text whose sign-less body is no spelled-out word and splits into no
/// mantissa and exponent is no number.
proof fn lemma_no_split_no_number(t: Seq<char>, body: Seq<char>)
    requires
        body == unsigned_part(t),
        !same_letters(body, "inf"@),
        !same_letters(body, "infinity"@),
        !same_letters(body, "nan"@),
        no_number_split(body),
    ensures
        !number_text(t),
{
}

/// Whether `t` reads as a number to `f32::from_str`.
pub fn is_number_text(t: &Vec<char>) -> (b: bool)
    ensures
        b == number_text(t@),
{
    let start: usize = if t.len() > 0 && (t[0] == '+' || t[0] == '-') { 1 } else { 0 };
    let ghost body = t@.skip(start as int);
    assert(body == unsigned_part(t@)) by {
        if start == 0 {
            assert(t@.skip(0) =~= t@);
        }
    }
    if letters_match(t, start, "inf") || letters_match(t, start, "infinity") || letters_match(t, start, "nan") {
        return true;
    }
    let ghost words = same_letters(body, "inf"@) || same_letters(body, "infinity"@) || same_letters(body, "nan"@);
    assert(!words);
    let (i, ok) = scan_mantissa(t, start);
    if !ok {
        proof {
            lemma_no_split_no_number(t@, body);
        }
        return false;
    }
    let ghost r = (i - start) as int;
    assert(t@.subrange(start as int, i as int) =~= body.take(r));
    if i == t.len() {
        assert(body.skip(r).len() == 0);
        return true;
    }
    let b = scan_exponent(t, i);
    assert(body.skip(r) =~= t@.skip(i as int));
    proof {
        if !b {
            assert forall|k: int|
                0 <= k <= body.len() && (forall|x: int| 0 <= x < k ==> body[x] != 'e' && body[x] != 'E')
                    && #[trigger] mantissa(body.take(k)) implies !exponent(body.skip(k)) by {
                if k < r {
                    assert(body.skip(k)[0] == t@[start + k]);
                } else if k > r {
                    assert(body[r] == t@[i as int]);
                }
            }
            lemma_no_split_no_number(t@, body);
        } else {
            assert(forall|x: int| 0 <= x < r ==> body[x] == t@[start + x]);
            assert(0 <= r <= body.len() && (forall|x: int| 0 <= x < r ==> body[x] != 'e' && body[x] != 'E') && mantissa(body.take(r))
                && exponent(body.skip(r)));
        }
    }
    b
}

impl Value {
    /// The value of an unquoted atom: a number when the text reads as one.
    /// Quoted strings skip this (`"12"` stays text).
    pub fn from_text(text: &str) -> (v: Value)
        ensures
            v.text@ == text@,
            v.is_number == number_text(text@),
    {
        let chars = crate::util::decimal::chars_of(text);
        let is_number = is_number_text(&chars);
        Value { is_number, text: text.to_owned() }
    }

    /// The text as the source spells it (`4800`, not `4.8e3`).
    pub fn to_string(&self) -> (s: String)
        ensures
            s@ == self.text@,
    {
        self.text.clone()
    }
}

impl Default for Value {
    fn default() -> (v: Value)
        ensures
            !v.is_number,
            v.text@ == Seq::<char>::empty(),
    {
        Value { is_number: false, text: String::new() }
    }
}

impl Default for Node {
    fn default() -> (n: Node)
        ensures
            view_node(n) == atom(Seq::empty(), false),
    {
        let n = Node { key: String::new(), op: Op::Bare, kind: Kind::Atom, value: Value::default(), children: Vec::new() };
        assert(view_nodes(n.children@) == Seq::<NodeView>::empty());
        n
    }
}

/// The position of the first of `ns` from `i` on whose key is `key`, or the
/// length when there is none.
pub open spec fn first_keyed(ns: Seq<Node>, key: Seq<char>, i: int) -> int
    decreases ns.len() - i,
{
    if i < 0 || i >= ns.len() {
        ns.len() as int
    } else if ns[i].key@ == key {
        i
    } else {
        first_keyed(ns, key, i + 1)
    }
}

/// The nodes of `ns` whose key is `key`, in order.
pub open spec fn all_keyed(ns: Seq<Node>, key: Seq<char>) -> Seq<Node>
    decreases ns.len(),
{
    if ns.len() == 0 {
        Seq::empty()
    } else if ns.last().key@ == key {
        all_keyed(ns.drop_last(), key).push(ns.last())
    } else {
        all_keyed(ns.drop_last(), key)
    }
}

pub proof fn lemma_first_keyed_bounds(ns: Seq<Node>, key: Seq<char>, i: int)
    requires
        0 <= i,
    ensures
        i <= first_keyed(ns, key, i) <= ns.len() || (i > ns.len() && first_keyed(ns, key, i) == ns.len()),
        first_keyed(ns, key, i) < ns.len() ==> ns[first_keyed(ns, key, i)].key@ == key,
    decreases ns.len() - i,
{
    if i < ns.len() && ns[i].key@ != key {
        lemma_first_keyed_bounds(ns, key, i + 1);
    }
}

impl Node {
    pub fn is_block(&self) -> (b: bool)
        ensures
            b == (self.kind == Kind::Block),
    {
        self.kind == Kind::Block
    }

    /// The first child with this key.
    pub fn get(&self, key: &str) -> (r: Option<&Node>)
        ensures
            ({
                let i = first_keyed(self.children@, key@, 0);
                if i < self.children@.len() {
                    r == Some(&self.children@[i])
                } else {
                    r is None
                }
            }),
    {
        let k = key.to_owned();
        let mut j: usize = 0;
        while j < self.children.len()
            invariant
                j <= self.children@.len(),
                k@ == key@,
                first_keyed(self.children@, key@, j as int) == first_keyed(self.children@, key@, 0),
            decreases self.children@.len() - j,
        {
            if self.children[j].key == k {
                return Some(&self.children[j]);
            }
            j = j + 1;
        }
        None
    }

    /// All children with this key, in order (duplicate keys are legal and
    /// common).
    pub fn get_all(&self, key: &str) -> (r: Vec<&Node>)
        ensures
            r@.len() == all_keyed(self.children@, key@).len(),
            forall|i: int| 0 <= i < r@.len() ==> *r@[i] == all_keyed(self.children@, key@)[i],
    {
        let k = key.to_owned();
        let mut r: Vec<&Node> = Vec::new();
        let mut j: usize = 0;
        while j < self.children.len()
            invariant
                j <= self.children@.len(),
                k@ == key@,
                r@.len() == all_keyed(self.children@.take(j as int), key@).len(),
                forall|i: int| 0 <= i < r@.len() ==> *r@[i] == all_keyed(self.children@.take(j as int), key@)[i],
            decreases self.children@.len() - j,
        {
            assert(self.children@.take(j + 1).drop_last() =~= self.children@.take(j as int));
            if self.children[j].key == k {
                r.push(&self.children[j]);
            }
            j = j + 1;
        }
        assert(self.children@.take(j as int) =~= self.children@);
        r
    }

    /// The value of the first child with this key, if that child is an atom.
    pub fn get_value(&self, key: &str) -> (r: Option<&Value>)
        ensures
            ({
                let i = first_keyed(self.children@, key@, 0);
                if i < self.children@.len() && self.children@[i].kind == Kind::Atom {
                    r == Some(&self.children@[i].value)
                } else {
                    r is None
                }
            }),
    {
        match self.get(key) {
            Some(node) => if node.kind == Kind::Atom {
                Some(&node.value)
            } else {
                None
            },
            None => None,
        }
    }

    /// The text of the first child with this key, if that child is an atom.
    pub fn get_text(&self, key: &str) -> (r: Option<&str>)
        ensures
            ({
                let i = first_keyed(self.children@, key@, 0);
                if i < self.children@.len() && self.children@[i].kind == Kind::Atom {
                    r is Some && r.unwrap()@ == self.children@[i].value.text@
                } else {
                    r is None
                }
            }),
    {
        match self.get_value(key) {
            Some(v) => Some(v.text.as_str()),
            None => None,
        }
    }
}

impl ParseResult {
    /// Whether the parse met no error.
    pub fn is_ok(&self) -> (b: bool)
        ensures
            b == (self.errors@.len() == 0),
    {
        self.errors.len() == 0
    }
}

impl Default for ParseResult {
    fn default() -> (r: ParseResult)
        ensures
            r.roots@.len() == 0,
            r.errors@.len() == 0,
    {
        ParseResult { roots: Vec::new(), errors: Vec::new() }
    }
}

/// Whether the parser's counters can hold `src`: the test a caller makes
/// before [`parse`].
pub fn source_fits_check(src: &str) -> (ok: bool)
    ensures
        ok == source_fits(src@),
{
    let text = crate::util::decimal::chars_of(src);
    let ghost s = src@;
    let mut offset: u64 = 0;
    let mut i: usize = 0;
    while i < text.len()
        invariant
            s == text@,
            s == src@,
            i <= s.len(),
            offset as nat == place_of(s, i as int).0,
            offset + 2 < u32::MAX,
        decreases s.len() - i,
    {
        let c = text[i];
        let w: u64 = if c == '\n' {
            1
        } else {
            crate::game::map_text::utf8_width_of(c) as u64
        };
        offset = offset + w;
        proof {
            assert(place_of(s, i + 1).0 == offset);
            lemma_place_bounds(s, i + 1);
        }
        if offset + 2 >= 0xFFFF_FFFF {
            proof {
                assert(place_of(s, s.len() as int).0 >= offset);
                assert(!source_fits(s));
            }
            return false;
        }
        i = i + 1;
    }
    true
}

/// Parses a whole source. It never fails: the result holds whatever tree
/// could be recovered and every error met, up to `MAX_ERRORS`.
pub fn parse(src: &str) -> (r: ParseResult)
    requires
        source_fits(src@),
    ensures
        (view_nodes(r.roots@), r.errors@) == parse_spec(src@),
{
    let text = crate::util::decimal::chars_of(src);
    proof {
        lemma_place_line_col(src@, src@.len() as int);
    }
    let mut p = Parser { text, pos: 0, errors: Vec::new() };
    let roots = p.parse_items(0);
    ParseResult { roots, errors: p.errors }
}

} // verus!
