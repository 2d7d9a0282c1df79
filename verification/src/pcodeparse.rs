//! The p-code snippet compiler: a lexer for snippet text, the symbols a
//! snippet can name, and a recursive-descent parser that drives the builder
//! of [`crate::pcodecompile`] and yields a construct template.
use vstd::prelude::*;

use crate::opcode::OpCode;
use crate::pcodecompile::{ExprTree, LabelSymbol, PcodeCompile, StarQuality, UserOpSymbol, VarnodeSymbol};
use crate::semantics::{ConstTpl, ConstType, ConstructTpl, OpTpl, VField, VarnodeTpl};
use crate::space::{AddrSpace, SpaceType};
use vstd::string::StringSliceAdditionalSpecFns;

verus! {

/// A symbol a snippet can name, as the parser needs it.
#[derive(Debug, Clone)]
pub enum SnippetSymbol {
    /// An address space, with its name.
    Space(AddrSpace, Vec<u8>),
    /// A user-defined operation.
    UserOp(UserOpSymbol),
    /// A named global register or temporary.
    Varnode(VarnodeSymbol),
    /// An operand of the constructor: its handle index and name.
    Operand(i32, Vec<u8>),
    /// The start address of the instruction.
    Start(Vec<u8>),
    /// The address of the next instruction.
    End(Vec<u8>),
    /// The address of the instruction after the next.
    Next2(Vec<u8>),
    /// The flow destination address.
    FlowDest(Vec<u8>),
    /// The flow reference address.
    FlowRef(Vec<u8>),
}

impl SnippetSymbol {
    /// The symbol's name.
    pub open spec fn spec_name(&self) -> Seq<u8> {
        match self {
            SnippetSymbol::Space(_, nm) => nm@,
            SnippetSymbol::UserOp(u) => u.name@,
            SnippetSymbol::Varnode(v) => v.name@,
            SnippetSymbol::Operand(_, nm) => nm@,
            SnippetSymbol::Start(nm) => nm@,
            SnippetSymbol::End(nm) => nm@,
            SnippetSymbol::Next2(nm) => nm@,
            SnippetSymbol::FlowDest(nm) => nm@,
            SnippetSymbol::FlowRef(nm) => nm@,
        }
    }

    /// The symbol's name.
    pub fn name(&self) -> (r: &[u8])
        ensures
            r@ == self.spec_name(),
    {
        match self {
            SnippetSymbol::Space(_, nm) => nm.as_slice(),
            SnippetSymbol::UserOp(u) => u.name.as_slice(),
            SnippetSymbol::Varnode(v) => v.name.as_slice(),
            SnippetSymbol::Operand(_, nm) => nm.as_slice(),
            SnippetSymbol::Start(nm) => nm.as_slice(),
            SnippetSymbol::End(nm) => nm.as_slice(),
            SnippetSymbol::Next2(nm) => nm.as_slice(),
            SnippetSymbol::FlowDest(nm) => nm.as_slice(),
            SnippetSymbol::FlowRef(nm) => nm.as_slice(),
        }
    }

    /// Does the symbol stand for a varnode (a register, an operand or one
    /// of the special addresses)?
    pub open spec fn is_specific(&self) -> bool {
        !(self is Space || self is UserOp)
    }

    /// Does the symbol stand for a varnode?
    pub fn is_specific_exec(&self) -> (r: bool)
        ensures
            r == self.is_specific(),
    {
        match self {
            SnippetSymbol::Space(_, _) | SnippetSymbol::UserOp(_) => false,
            _ => true,
        }
    }
}

/// The named address: the constant space, a placeholder offset of kind
/// `tp`, and a zero size.
pub open spec fn addr_vn(cs: AddrSpace, tp: ConstType) -> VarnodeTpl {
    VarnodeTpl {
        space: ConstTpl::spec_space_const(cs),
        offset: ConstTpl { type_: tp, value_spaceid: None, value_handle_index: 0, value_real: 0, select: VField::VSpace },
        size: ConstTpl::spec_real_const(ConstType::Real, 0),
        unnamed_flag: false,
    }
}

/// The varnode a symbol stands for; `cs` is the constant space.  Spaces
/// and user operations stand for none.
pub open spec fn symbol_varnode(sym: SnippetSymbol, cs: AddrSpace) -> Option<VarnodeTpl> {
    match sym {
        SnippetSymbol::Varnode(v) => Some(
            VarnodeTpl {
                space: ConstTpl::spec_space_const(v.space),
                offset: ConstTpl::spec_real_const(ConstType::Real, v.offset),
                size: ConstTpl::spec_real_const(ConstType::Real, v.size as u64),
                unnamed_flag: false,
            },
        ),
        SnippetSymbol::Operand(hand, _) => Some(
            VarnodeTpl {
                space: ConstTpl::spec_handle_const(hand, VField::VSpace),
                offset: ConstTpl::spec_handle_const(hand, VField::VOffset),
                size: ConstTpl::spec_handle_const(hand, VField::VSize),
                unnamed_flag: false,
            },
        ),
        SnippetSymbol::Start(_) => Some(addr_vn(cs, ConstType::JStart)),
        SnippetSymbol::End(_) => Some(addr_vn(cs, ConstType::JNext)),
        SnippetSymbol::Next2(_) => Some(addr_vn(cs, ConstType::JNext2)),
        SnippetSymbol::FlowDest(_) => Some(addr_vn(cs, ConstType::JFlowdest)),
        SnippetSymbol::FlowRef(_) => Some(addr_vn(cs, ConstType::JFlowref)),
        _ => None,
    }
}

/// The varnode a symbol stands for (see [`symbol_varnode`]); `constant_space`
/// is the constant space the special addresses live in.
pub fn get_varnode_tpl(sym: &SnippetSymbol, constant_space: AddrSpace) -> (r: Option<VarnodeTpl>)
    ensures
        r == symbol_varnode(*sym, constant_space),
{
    match sym {
        SnippetSymbol::Varnode(v) => Some(
            VarnodeTpl::new(
                ConstTpl::new_space(v.space),
                ConstTpl::new_real(ConstType::Real, v.offset),
                ConstTpl::new_real(ConstType::Real, v.size as u64),
            ),
        ),
        SnippetSymbol::Operand(hand, _) => Some(VarnodeTpl::new_from_handle(*hand, false)),
        SnippetSymbol::Start(_) => Some(
            VarnodeTpl::new(
                ConstTpl::new_space(constant_space),
                ConstTpl::new_type(ConstType::JStart),
                ConstTpl::new(),
            ),
        ),
        SnippetSymbol::End(_) => Some(
            VarnodeTpl::new(
                ConstTpl::new_space(constant_space),
                ConstTpl::new_type(ConstType::JNext),
                ConstTpl::new(),
            ),
        ),
        SnippetSymbol::Next2(_) => Some(
            VarnodeTpl::new(
                ConstTpl::new_space(constant_space),
                ConstTpl::new_type(ConstType::JNext2),
                ConstTpl::new(),
            ),
        ),
        SnippetSymbol::FlowDest(_) => Some(
            VarnodeTpl::new(
                ConstTpl::new_space(constant_space),
                ConstTpl::new_type(ConstType::JFlowdest),
                ConstTpl::new(),
            ),
        ),
        SnippetSymbol::FlowRef(_) => Some(
            VarnodeTpl::new(
                ConstTpl::new_space(constant_space),
                ConstTpl::new_type(ConstType::JFlowref),
                ConstTpl::new(),
            ),
        ),
        _ => None,
    }
}

/// An entry of a snippet's local scope.
#[derive(Debug, Clone)]
pub enum SnippetLocal {
    /// A symbol (space, operand, temporary, special address).
    Symbol(SnippetSymbol),
    /// A branch label.
    Label(LabelSymbol),
}

/// A named entry of a snippet's local scope.
#[derive(Debug, Clone)]
pub struct ScopeEntry {
    /// The name the entry is found by.
    pub name: Vec<u8>,
    /// The entry.
    pub local: SnippetLocal,
}

/// The names of the scope's entries, in order.
pub open spec fn scope_names(tree: Seq<ScopeEntry>) -> Seq<Seq<u8>> {
    tree.map_values(|e: ScopeEntry| e.name@)
}

/// Does the scope have an entry named `name`?
pub open spec fn scope_has(tree: Seq<ScopeEntry>, name: Seq<u8>) -> bool {
    exists|i: int| 0 <= i < tree.len() && (#[trigger] tree[i]).name@ == name
}


/// The states of the snippet lexer; a step also yields one of them as the
/// kind of token it completed (`Start` when none).
#[derive(Debug, Clone, Copy, PartialEq, Eq, Structural)]
pub enum LexState {
    /// Between tokens.
    Start,
    /// The second character of a two-character operator is next.
    Special2,
    /// The second of three characters of an operator is next.
    Special3,
    /// The third of three characters of an operator is next.
    Special32,
    /// Inside a comment.
    Comment,
    /// A punctuation character.
    Punctuation,
    /// Inside an identifier.
    Identifier,
    /// Inside a hexadecimal number.
    Hexstring,
    /// Inside a decimal (or octal) number.
    Decstring,
    /// The end of the text.
    Endstream,
    /// A character that starts no token.
    Illegal,
}

/// Can `c` continue an identifier: a letter, digit, `_` or `.`?
pub open spec fn spec_is_ident(c: u8) -> bool {
    (97 <= c <= 122) || (65 <= c <= 90) || (48 <= c <= 57) || c == 95 || c == 46
}

/// Is `c` a hexadecimal digit?
pub open spec fn spec_is_hex(c: u8) -> bool {
    (48 <= c <= 57) || (97 <= c <= 102) || (65 <= c <= 70)
}

/// Is `c` a decimal digit?
pub open spec fn spec_is_dec(c: u8) -> bool {
    48 <= c <= 57
}

/// One step of the lexer from state `Start` on character `c` with the next
/// two characters `l1`, `l2`: the new state, the kind of token completed
/// (`Start` for none), and whether `c` starts a new token.
pub open spec fn start_step(c: u8, l1: u8, l2: u8) -> (LexState, LexState, bool) {
    if c == 35 {
        (LexState::Comment, LexState::Start, false)
    } else if c == 124 || c == 38 || c == 94 {
        if l1 == c {
            (LexState::Special2, LexState::Start, true)
        } else {
            (LexState::Start, LexState::Punctuation, false)
        }
    } else if c == 62 || c == 60 {
        if l1 == c || l1 == 61 {
            (LexState::Special2, LexState::Start, true)
        } else {
            (LexState::Start, LexState::Punctuation, false)
        }
    } else if c == 61 || c == 33 {
        if l1 == 61 {
            (LexState::Special2, LexState::Start, true)
        } else {
            (LexState::Start, LexState::Punctuation, false)
        }
    } else if c == 40 || c == 41 || c == 44 || c == 58 || c == 91 || c == 93 || c == 59 || c == 43 || c == 45
        || c == 42 || c == 47 || c == 37 || c == 126 {
        (LexState::Start, LexState::Punctuation, false)
    } else if c == 115 || c == 102 {
        sf_step(c, l1, l2)
    } else if (97 <= c <= 122) || (65 <= c <= 90) || c == 95 || c == 46 {
        ident_step(l1)
    } else if c == 48 {
        if l1 == 120 {
            (LexState::Hexstring, LexState::Start, true)
        } else if spec_is_dec(l1) {
            (LexState::Decstring, LexState::Start, true)
        } else {
            (LexState::Start, LexState::Decstring, true)
        }
    } else if 49 <= c <= 57 {
        if spec_is_dec(l1) {
            (LexState::Decstring, LexState::Start, true)
        } else {
            (LexState::Start, LexState::Decstring, true)
        }
    } else if c == 10 || c == 32 || c == 9 || c == 11 || c == 13 {
        (LexState::Start, LexState::Start, false)
    } else if c == 0 {
        (LexState::Endstream, LexState::Endstream, false)
    } else {
        (LexState::Illegal, LexState::Illegal, false)
    }
}

/// The step that starts an identifier (see [`start_step`]).
pub open spec fn ident_step(l1: u8) -> (LexState, LexState, bool) {
    if spec_is_ident(l1) {
        (LexState::Identifier, LexState::Start, true)
    } else {
        (LexState::Start, LexState::Identifier, true)
    }
}

/// The step on `s` or `f`, which may start a signed or float operator
/// (`s/ s% s< s<= s> s>> s>=`, `f+ f- f* f/ f== f!= f< f<= f> f>=`) and
/// otherwise starts an identifier.
pub open spec fn sf_step(c: u8, l1: u8, l2: u8) -> (LexState, LexState, bool) {
    if c == 115 {
        if l1 == 47 || l1 == 37 {
            (LexState::Special2, LexState::Start, true)
        } else if l1 == 60 {
            (if l2 == 61 { LexState::Special3 } else { LexState::Special2 }, LexState::Start, true)
        } else if l1 == 62 {
            (if l2 == 62 || l2 == 61 { LexState::Special3 } else { LexState::Special2 }, LexState::Start, true)
        } else {
            ident_step(l1)
        }
    } else {
        if l1 == 43 || l1 == 45 || l1 == 42 || l1 == 47 {
            (LexState::Special2, LexState::Start, true)
        } else if (l1 == 61 || l1 == 33) && l2 == 61 {
            (LexState::Special3, LexState::Start, true)
        } else if l1 == 60 || l1 == 62 {
            (if l2 == 61 { LexState::Special3 } else { LexState::Special2 }, LexState::Start, true)
        } else {
            ident_step(l1)
        }
    }
}

/// One step of the lexer in state `st` on character `c` with the next two
/// characters `l1`, `l2`: the new state, the kind of token completed
/// (`Start` for none), and what happens to the token text: 0 nothing,
/// 1 `c` starts it, 2 `c` is appended.
pub open spec fn move_step(st: LexState, c: u8, l1: u8, l2: u8) -> (LexState, LexState, u8) {
    match st {
        LexState::Start => {
            let r = start_step(c, l1, l2);
            (r.0, r.1, if r.2 { 1 } else { 0 })
        },
        LexState::Special2 => (LexState::Start, LexState::Identifier, 2),
        LexState::Special3 => (LexState::Special32, LexState::Start, 2),
        LexState::Special32 => (LexState::Start, LexState::Identifier, 2),
        LexState::Comment => {
            if c == 10 {
                (LexState::Start, LexState::Start, 0)
            } else if c == 0 {
                (LexState::Endstream, LexState::Endstream, 0)
            } else {
                (LexState::Comment, LexState::Start, 0)
            }
        },
        LexState::Identifier => {
            if spec_is_ident(l1) {
                (LexState::Identifier, LexState::Start, 2)
            } else {
                (LexState::Start, LexState::Identifier, 2)
            }
        },
        LexState::Hexstring => {
            if spec_is_hex(l1) {
                (LexState::Hexstring, LexState::Start, 2)
            } else {
                (LexState::Start, LexState::Hexstring, 2)
            }
        },
        LexState::Decstring => {
            if spec_is_dec(l1) {
                (LexState::Decstring, LexState::Start, 2)
            } else {
                (LexState::Start, LexState::Decstring, 2)
            }
        },
        _ => (LexState::Endstream, LexState::Endstream, 0),
    }
}

/// What the lexer hands the parser.
#[derive(Debug)]
pub enum Lexeme {
    /// A keyword or operator of the keyword table, by its index there.
    Keyword(usize),
    /// Any other identifier.
    Identifier(Vec<u8>),
    /// A number.
    Integer(u64),
    /// A number too large for 64 bits.
    BadInteger,
    /// The end of the text.
    Endofstream,
    /// Nothing more (also after an illegal character).
    Eof,
    /// A punctuation character.
    Char(u8),
}

/// The snippet lexer: a character state machine with two characters of
/// lookahead over the snippet text.
pub struct PcodeLexer {
    /// The current state.
    pub curstate: LexState,
    /// The character being looked at.
    pub curchar: u8,
    /// The next character.
    pub lookahead1: u8,
    /// The character after that.
    pub lookahead2: u8,
    /// The text of the token being read.
    pub curtoken: Vec<u8>,
    /// The snippet text.
    pub buf: Vec<u8>,
    /// The position of the next character to read from the text.
    pub pos: usize,
    /// Has the text run out?
    pub endofstream: bool,
    /// Has the end of the text been reported?
    pub endofstreamsent: bool,
    /// How many characters have been shifted in so far.
    pub shifted: Ghost<nat>,
}

/// Character `k` of `buf`, or 0 past its end.
pub open spec fn char_at(buf: Seq<u8>, k: int) -> u8 {
    if 0 <= k < buf.len() {
        buf[k]
    } else {
        0
    }
}

/// How much weight a state carries in the lexer's progress measure.
pub open spec fn state_weight(st: LexState) -> nat {
    match st {
        LexState::Special3 => 4,
        LexState::Special32 => 3,
        LexState::Special2 | LexState::Identifier | LexState::Hexstring | LexState::Decstring => 2,
        LexState::Start | LexState::Comment => 1,
        _ => 0,
    }
}

impl PcodeLexer {
    /// Do the lookahead characters and the read position agree with the
    /// number of characters shifted in?
    pub open spec fn wf(&self) -> bool {
        let g = self.shifted@ as int;
        &&& self.lookahead1 == char_at(self.buf@, g)
        &&& self.lookahead2 == char_at(self.buf@, g + 1)
        &&& (self.endofstream ==> self.pos == self.buf@.len() && g + 2 >= self.buf@.len())
        &&& (!self.endofstream ==> self.pos == g + 2 && self.pos <= self.buf@.len())
    }

    /// The lexer's progress measure: it shrinks with every token but the
    /// last.
    pub open spec fn measure(&self) -> nat {
        let g = self.shifted@ as int;
        let left: int = self.buf@.len() + 3 - g;
        (5 * (if left > 0 { left } else { 0 }) + state_weight(self.curstate) + (if self.endofstreamsent { 0int } else { 1int })) as nat
    }

    /// A lexer at the start of `buf`, the first two characters looked at.
    pub fn initialize(buf: &[u8]) -> (r: PcodeLexer)
        ensures
            r.wf(),
            r.buf@ == buf@,
            r.curstate == LexState::Start,
            r.curtoken@.len() == 0,
            !r.endofstreamsent,
            r.shifted@ == 0,
    {
        let mut lex = PcodeLexer {
            curstate: LexState::Start,
            curchar: 0,
            lookahead1: 0,
            lookahead2: 0,
            curtoken: Vec::new(),
            buf: vstd::slice::slice_to_vec(buf),
            pos: 0,
            endofstream: false,
            endofstreamsent: false,
            shifted: Ghost(0),
        };
        match lex.stream_get() {
            Some(c) => lex.lookahead1 = c,
            None => {
                lex.endofstream = true;
                lex.lookahead1 = 0;
                return lex;
            },
        }
        match lex.stream_get() {
            Some(c) => lex.lookahead2 = c,
            None => {
                lex.endofstream = true;
                lex.lookahead2 = 0;
            },
        }
        lex
    }

    /// Read the next character of the text, if any.
    pub fn stream_get(&mut self) -> (r: Option<u8>)
        ensures
            old(self).pos < old(self).buf@.len() ==> r == Some(old(self).buf@[old(self).pos as int])
                && final(self).pos == old(self).pos + 1,
            old(self).pos >= old(self).buf@.len() ==> r is None && final(self).pos == old(self).pos,
            *final(self) == (PcodeLexer { pos: final(self).pos, ..*old(self) }),
    {
        if self.pos < self.buf.len() {
            let c = self.buf[self.pos];
            self.pos = self.pos + 1;
            Some(c)
        } else {
            None
        }
    }

    /// Start the token text with the current character.
    pub fn start_token(&mut self)
        ensures
            final(self).curtoken@ == seq![old(self).curchar],
            *final(self) == (PcodeLexer { curtoken: final(self).curtoken, ..*old(self) }),
    {
        self.curtoken.clear();
        self.curtoken.push(self.curchar);
    }

    /// Append the current character to the token text.
    pub fn advance_token(&mut self)
        ensures
            final(self).curtoken@ == old(self).curtoken@.push(old(self).curchar),
            *final(self) == (PcodeLexer { curtoken: final(self).curtoken, ..*old(self) }),
    {
        self.curtoken.push(self.curchar);
    }

    /// Can `c` continue an identifier?
    pub fn is_ident(c: u8) -> (r: bool)
        ensures
            r == spec_is_ident(c),
    {
        (97 <= c && c <= 122) || (65 <= c && c <= 90) || (48 <= c && c <= 57) || c == 95 || c == 46
    }

    /// Is `c` a hexadecimal digit?
    pub fn is_hex(c: u8) -> (r: bool)
        ensures
            r == spec_is_hex(c),
    {
        (48 <= c && c <= 57) || (97 <= c && c <= 102) || (65 <= c && c <= 70)
    }

    /// Is `c` a decimal digit?
    pub fn is_dec(c: u8) -> (r: bool)
        ensures
            r == spec_is_dec(c),
    {
        48 <= c && c <= 57
    }
}


impl PcodeLexer {
    /// Does the lexer differ from `old` at most in state and token text?
    pub open spec fn same_input(&self, old: PcodeLexer) -> bool {
        &&& self.curchar == old.curchar
        &&& self.lookahead1 == old.lookahead1
        &&& self.lookahead2 == old.lookahead2
        &&& self.buf == old.buf
        &&& self.pos == old.pos
        &&& self.endofstream == old.endofstream
        &&& self.endofstreamsent == old.endofstreamsent
        &&& self.shifted == old.shifted
    }

    /// The token text after a step with text action `act` (see
    /// [`move_step`]).
    pub open spec fn token_after(&self, act: u8) -> Seq<u8> {
        if act == 1 {
            seq![self.curchar]
        } else if act == 2 {
            self.curtoken@.push(self.curchar)
        } else {
            self.curtoken@
        }
    }

    /// The step from state `Start` (see [`start_step`]).
    pub fn move_state_start(&mut self) -> (r: LexState)
        requires
            old(self).curstate == LexState::Start,
        ensures
            ({
                let st = start_step(old(self).curchar, old(self).lookahead1, old(self).lookahead2);
                &&& final(self).curstate == st.0
                &&& r == st.1
                &&& final(self).curtoken@ == old(self).token_after(if st.2 { 1 } else { 0 })
            }),
            final(self).same_input(*old(self)),
    {
        let c = self.curchar;
        let l1 = self.lookahead1;
        if c == 35 {
            self.curstate = LexState::Comment;
            LexState::Start
        } else if c == 124 || c == 38 || c == 94 {
            if l1 == c {
                self.start_token();
                self.curstate = LexState::Special2;
                LexState::Start
            } else {
                LexState::Punctuation
            }
        } else if c == 62 || c == 60 {
            if l1 == c || l1 == 61 {
                self.start_token();
                self.curstate = LexState::Special2;
                LexState::Start
            } else {
                LexState::Punctuation
            }
        } else if c == 61 || c == 33 {
            if l1 == 61 {
                self.start_token();
                self.curstate = LexState::Special2;
                LexState::Start
            } else {
                LexState::Punctuation
            }
        } else if c == 40 || c == 41 || c == 44 || c == 58 || c == 91 || c == 93 || c == 59 || c == 43
            || c == 45 || c == 42 || c == 47 || c == 37 || c == 126 {
            LexState::Punctuation
        } else if c == 115 || c == 102 {
            self.move_state_sf()
        } else if (97 <= c && c <= 122) || (65 <= c && c <= 90) || c == 95 || c == 46 {
            self.start_identifier()
        } else if c == 48 {
            self.start_token();
            if l1 == 120 {
                self.curstate = LexState::Hexstring;
                LexState::Start
            } else if Self::is_dec(l1) {
                self.curstate = LexState::Decstring;
                LexState::Start
            } else {
                self.curstate = LexState::Start;
                LexState::Decstring
            }
        } else if 49 <= c && c <= 57 {
            self.start_token();
            if Self::is_dec(l1) {
                self.curstate = LexState::Decstring;
                LexState::Start
            } else {
                self.curstate = LexState::Start;
                LexState::Decstring
            }
        } else if c == 10 || c == 32 || c == 9 || c == 11 || c == 13 {
            LexState::Start
        } else if c == 0 {
            self.curstate = LexState::Endstream;
            LexState::Endstream
        } else {
            self.curstate = LexState::Illegal;
            LexState::Illegal
        }
    }

    /// The step on `s` or `f` (see [`sf_step`]).
    pub fn move_state_sf(&mut self) -> (r: LexState)
        requires
            old(self).curchar == 115 || old(self).curchar == 102,
        ensures
            ({
                let st = sf_step(old(self).curchar, old(self).lookahead1, old(self).lookahead2);
                &&& final(self).curstate == st.0
                &&& r == st.1
                &&& final(self).curtoken@ == old(self).token_after(if st.2 { 1 } else { 0 })
            }),
            final(self).same_input(*old(self)),
    {
        let l1 = self.lookahead1;
        let l2 = self.lookahead2;
        if self.curchar == 115 {
            if l1 == 47 || l1 == 37 {
                self.start_token();
                self.curstate = LexState::Special2;
                return LexState::Start;
            } else if l1 == 60 {
                self.start_token();
                if l2 == 61 {
                    self.curstate = LexState::Special3;
                } else {
                    self.curstate = LexState::Special2;
                }
                return LexState::Start;
            } else if l1 == 62 {
                self.start_token();
                if l2 == 62 || l2 == 61 {
                    self.curstate = LexState::Special3;
                } else {
                    self.curstate = LexState::Special2;
                }
                return LexState::Start;
            }
        } else {
            if l1 == 43 || l1 == 45 || l1 == 42 || l1 == 47 {
                self.start_token();
                self.curstate = LexState::Special2;
                return LexState::Start;
            } else if (l1 == 61 || l1 == 33) && l2 == 61 {
                self.start_token();
                self.curstate = LexState::Special3;
                return LexState::Start;
            } else if l1 == 60 || l1 == 62 {
                self.start_token();
                if l2 == 61 {
                    self.curstate = LexState::Special3;
                } else {
                    self.curstate = LexState::Special2;
                }
                return LexState::Start;
            }
        }
        self.start_identifier()
    }

    /// Start an identifier with the current character (see
    /// [`ident_step`]).
    pub fn start_identifier(&mut self) -> (r: LexState)
        ensures
            ({
                let st = ident_step(old(self).lookahead1);
                &&& final(self).curstate == st.0
                &&& r == st.1
                &&& final(self).curtoken@ == seq![old(self).curchar]
            }),
            final(self).same_input(*old(self)),
    {
        self.start_token();
        if Self::is_ident(self.lookahead1) {
            self.curstate = LexState::Identifier;
            return LexState::Start;
        }
        self.curstate = LexState::Start;
        LexState::Identifier
    }

    /// One step of the character state machine (see [`move_step`]).
    pub fn move_state(&mut self) -> (r: LexState)
        ensures
            ({
                let st = move_step(old(self).curstate, old(self).curchar, old(self).lookahead1, old(self).lookahead2);
                &&& final(self).curstate == st.0
                &&& r == st.1
                &&& final(self).curtoken@ == old(self).token_after(st.2)
            }),
            final(self).same_input(*old(self)),
    {
        match self.curstate {
            LexState::Start => self.move_state_start(),
            LexState::Special2 => {
                self.advance_token();
                self.curstate = LexState::Start;
                LexState::Identifier
            },
            LexState::Special3 => {
                self.advance_token();
                self.curstate = LexState::Special32;
                LexState::Start
            },
            LexState::Special32 => {
                self.advance_token();
                self.curstate = LexState::Start;
                LexState::Identifier
            },
            LexState::Comment => {
                if self.curchar == 10 {
                    self.curstate = LexState::Start;
                } else if self.curchar == 0 {
                    self.curstate = LexState::Endstream;
                    return LexState::Endstream;
                }
                LexState::Start
            },
            LexState::Identifier => {
                self.advance_token();
                if Self::is_ident(self.lookahead1) {
                    return LexState::Start;
                }
                self.curstate = LexState::Start;
                LexState::Identifier
            },
            LexState::Hexstring => {
                self.advance_token();
                if Self::is_hex(self.lookahead1) {
                    return LexState::Start;
                }
                self.curstate = LexState::Start;
                LexState::Hexstring
            },
            LexState::Decstring => {
                self.advance_token();
                if Self::is_dec(self.lookahead1) {
                    return LexState::Start;
                }
                self.curstate = LexState::Start;
                LexState::Decstring
            },
            _ => {
                self.curstate = LexState::Endstream;
                LexState::Endstream
            },
        }
    }
}


/// The number of entries of the keyword table.
pub const NUM_IDENTS: usize = 46;

/// Entry `i` of the keyword table: the keywords and multi-character
/// operators of the snippet language, meant to be in byte order (the entry
/// `||` is out of place, before `abs`).
pub open spec fn ident_spec(i: int) -> Seq<u8> {
    if i == 0 {
        "!=".spec_bytes()
    } else if i == 1 {
        "&&".spec_bytes()
    } else if i == 2 {
        "<<".spec_bytes()
    } else if i == 3 {
        "<=".spec_bytes()
    } else if i == 4 {
        "==".spec_bytes()
    } else if i == 5 {
        ">=".spec_bytes()
    } else if i == 6 {
        ">>".spec_bytes()
    } else if i == 7 {
        "^^".spec_bytes()
    } else if i == 8 {
        "||".spec_bytes()
    } else if i == 9 {
        "abs".spec_bytes()
    } else if i == 10 {
        "borrow".spec_bytes()
    } else if i == 11 {
        "call".spec_bytes()
    } else if i == 12 {
        "carry".spec_bytes()
    } else if i == 13 {
        "ceil".spec_bytes()
    } else if i == 14 {
        "f!=".spec_bytes()
    } else if i == 15 {
        "f*".spec_bytes()
    } else if i == 16 {
        "f+".spec_bytes()
    } else if i == 17 {
        "f-".spec_bytes()
    } else if i == 18 {
        "f/".spec_bytes()
    } else if i == 19 {
        "f<".spec_bytes()
    } else if i == 20 {
        "f<=".spec_bytes()
    } else if i == 21 {
        "f==".spec_bytes()
    } else if i == 22 {
        "f>".spec_bytes()
    } else if i == 23 {
        "f>=".spec_bytes()
    } else if i == 24 {
        "float2float".spec_bytes()
    } else if i == 25 {
        "floor".spec_bytes()
    } else if i == 26 {
        "goto".spec_bytes()
    } else if i == 27 {
        "if".spec_bytes()
    } else if i == 28 {
        "int2float".spec_bytes()
    } else if i == 29 {
        "local".spec_bytes()
    } else if i == 30 {
        "nan".spec_bytes()
    } else if i == 31 {
        "return".spec_bytes()
    } else if i == 32 {
        "round".spec_bytes()
    } else if i == 33 {
        "s%".spec_bytes()
    } else if i == 34 {
        "s/".spec_bytes()
    } else if i == 35 {
        "s<".spec_bytes()
    } else if i == 36 {
        "s<=".spec_bytes()
    } else if i == 37 {
        "s>".spec_bytes()
    } else if i == 38 {
        "s>=".spec_bytes()
    } else if i == 39 {
        "s>>".spec_bytes()
    } else if i == 40 {
        "sborrow".spec_bytes()
    } else if i == 41 {
        "scarry".spec_bytes()
    } else if i == 42 {
        "sext".spec_bytes()
    } else if i == 43 {
        "sqrt".spec_bytes()
    } else if i == 44 {
        "trunc".spec_bytes()
    } else if i == 45 {
        "zext".spec_bytes()
    } else {
        Seq::empty()
    }
}

/// Entry `i` of the keyword table (see [`ident_spec`]).
pub fn ident_name(i: usize) -> (r: &'static str)
    requires
        i < NUM_IDENTS,
    ensures
        r.spec_bytes() == ident_spec(i as int),
{
    match i {
        0 => "!=",
        1 => "&&",
        2 => "<<",
        3 => "<=",
        4 => "==",
        5 => ">=",
        6 => ">>",
        7 => "^^",
        8 => "||",
        9 => "abs",
        10 => "borrow",
        11 => "call",
        12 => "carry",
        13 => "ceil",
        14 => "f!=",
        15 => "f*",
        16 => "f+",
        17 => "f-",
        18 => "f/",
        19 => "f<",
        20 => "f<=",
        21 => "f==",
        22 => "f>",
        23 => "f>=",
        24 => "float2float",
        25 => "floor",
        26 => "goto",
        27 => "if",
        28 => "int2float",
        29 => "local",
        30 => "nan",
        31 => "return",
        32 => "round",
        33 => "s%",
        34 => "s/",
        35 => "s<",
        36 => "s<=",
        37 => "s>",
        38 => "s>=",
        39 => "s>>",
        40 => "sborrow",
        41 => "scarry",
        42 => "sext",
        43 => "sqrt",
        44 => "trunc",
        45 => "zext",
        _ => "zext",
    }
}

/// Is byte string `a` before `b` in byte-lexicographic order?
pub open spec fn bytes_lt(a: Seq<u8>, b: Seq<u8>) -> bool
    decreases a.len(),
{
    if a.len() == 0 {
        b.len() > 0
    } else if b.len() == 0 {
        false
    } else if a[0] != b[0] {
        a[0] < b[0]
    } else {
        bytes_lt(a.drop_first(), b.drop_first())
    }
}

/// Is byte string `a` before `b` in byte-lexicographic order?
pub fn bytes_less(a: &[u8], b: &[u8]) -> (r: bool)
    ensures
        r == bytes_lt(a@, b@),
{
    let mut i: usize = 0;
    assert(a@.skip(0) =~= a@);
    assert(b@.skip(0) =~= b@);
    while i < a.len() && i < b.len()
        invariant
            i <= a@.len(),
            i <= b@.len(),
            bytes_lt(a@, b@) == bytes_lt(a@.skip(i as int), b@.skip(i as int)),
        decreases a@.len() - i,
    {
        if a[i] != b[i] {
            return a[i] < b[i];
        }
        proof {
            assert(a@.skip(i as int).drop_first() =~= a@.skip(i + 1));
            assert(b@.skip(i as int).drop_first() =~= b@.skip(i + 1));
        }
        i += 1;
    }
    i == a.len() && i < b.len()
}

/// The binary search of the keyword table between entries `low` and
/// `high`: probe the middle entry, go left when `s` is before it, right
/// when after it.  As the table is not quite in order, some entries are not
/// found.
pub open spec fn ident_search(s: Seq<u8>, low: int, high: int) -> Option<int>
    decreases high - low + 1,
{
    if low > high || low < 0 || high >= NUM_IDENTS {
        None
    } else {
        let targ = (low + high) / 2;
        if s == ident_spec(targ) {
            Some(targ)
        } else if bytes_lt(s, ident_spec(targ)) {
            ident_search(s, low, targ - 1)
        } else {
            ident_search(s, targ + 1, high)
        }
    }
}


impl PcodeLexer {
    /// Look `s` up in the keyword table by binary search (see
    /// [`ident_search`]): its index, or `None`.
    pub fn find_identifier(s: &[u8]) -> (r: Option<usize>)
        ensures
            r matches Some(i) ==> ident_search(s@, 0, NUM_IDENTS - 1) == Some(i as int) && i < NUM_IDENTS,
            r is None ==> ident_search(s@, 0, NUM_IDENTS - 1) is None,
            r matches Some(i) ==> ident_spec(i as int) == s@,
    {
        let mut low: i32 = 0;
        let mut high: i32 = 45;
        loop
            invariant
                0 <= low <= high <= 45,
                ident_search(s@, 0, NUM_IDENTS - 1) == ident_search(s@, low as int, high as int),
            decreases high - low,
        {
            let targ = (low + high) / 2;
            let nm = ident_name(targ as usize).as_bytes();
            if crate::pcodecompile::bytes_eq(s, nm) {
                return Some(targ as usize);
            }
            if bytes_less(s, nm) {
                high = targ - 1;
            } else {
                low = targ + 1;
            }
            if low > high {
                return None;
            }
        }
    }
}


/// Is `bytes` well-formed UTF-8?  Calls `std::str::from_utf8`, which
/// succeeds exactly on well-formed UTF-8; the contract claims that this is
/// vstd's `valid_utf8`.
#[verifier::external_body]
fn is_utf8(bytes: &[u8]) -> (r: bool)
    ensures
        r == vstd::utf8::valid_utf8(bytes@),
{
    std::str::from_utf8(bytes).is_ok()
}

/// The value of digit character `b` (letters count from 10), or 99 for
/// any other character.
pub open spec fn digit_value(b: u8) -> int {
    if 48 <= b <= 57 {
        b - 48
    } else if 97 <= b <= 102 {
        b - 97 + 10
    } else if 65 <= b <= 70 {
        b - 65 + 10
    } else {
        99
    }
}

/// The radix of a number literal and where its digits start: `0x`/`0X`
/// hexadecimal after the prefix, a leading `0` octal (the `0` included),
/// else decimal.
pub open spec fn number_radix(t: Seq<u8>) -> (int, int) {
    if t.len() >= 2 && t[0] == 48 && (t[1] == 120 || t[1] == 88) {
        (16, 2)
    } else if t.len() > 1 && t[0] == 48 {
        (8, 0)
    } else {
        (10, 0)
    }
}

/// The number of leading characters of `t` that are digits in `radix`.
pub open spec fn digit_run(t: Seq<u8>, radix: int) -> nat
    decreases t.len(),
{
    if t.len() == 0 || digit_value(t[0]) >= radix {
        0
    } else {
        1 + digit_run(t.drop_first(), radix)
    }
}

/// The value of the digits `t` in `radix`, most significant first.
pub open spec fn digits_value(t: Seq<u8>, radix: int) -> int
    decreases t.len(),
{
    if t.len() == 0 {
        0
    } else {
        digits_value(t.drop_last(), radix) * radix + digit_value(t.last())
    }
}

/// The value of a number literal: the longest run of digits valid in its
/// radix (see [`number_radix`]); nothing when the text is not UTF-8, has no
/// such digit, or the value does not fit in 64 bits.
pub open spec fn number_value(t: Seq<u8>) -> Option<u64> {
    let (radix, start) = number_radix(t);
    let digits = t.subrange(start, t.len() as int);
    let n = digit_run(digits, radix);
    let v = digits_value(digits.take(n as int), radix);
    if !vstd::utf8::valid_utf8(t) || n == 0 || v > u64::MAX {
        None
    } else {
        Some(v as u64)
    }
}

/// `digit_run` is the length of the leading run of valid digits.
proof fn lemma_digit_run(t: Seq<u8>, radix: int, i: int)
    requires
        0 <= i <= t.len(),
        forall|j: int| 0 <= j < i ==> digit_value(#[trigger] t[j]) < radix,
        i < t.len() ==> digit_value(t[i]) >= radix,
    ensures
        digit_run(t, radix) == i,
    decreases i,
{
    if i > 0 {
        assert forall|j: int| 0 <= j < i - 1 implies digit_value(#[trigger] t.drop_first()[j]) < radix by {
            assert(t.drop_first()[j] == t[j + 1]);
        }
        if i - 1 < t.drop_first().len() {
            assert(t.drop_first()[i - 1] == t[i]);
        }
        lemma_digit_run(t.drop_first(), radix, i - 1);
    }
}

/// A longer run of digits has at least the value of a shorter one.
proof fn lemma_digits_value_mono(t: Seq<u8>, radix: int, k: int, m: int)
    requires
        radix >= 1,
        0 <= k <= m <= t.len(),
        forall|j: int| 0 <= j < m ==> 0 <= digit_value(#[trigger] t[j]) < radix,
    ensures
        0 <= digits_value(t.take(k), radix) <= digits_value(t.take(m), radix),
    decreases m - k,
{
    lemma_digits_value_nonneg(t.take(k), radix);
    if k < m {
        lemma_digits_value_mono(t, radix, k, m - 1);
        let a = t.take(m - 1);
        assert(t.take(m).drop_last() =~= a);
        assert(t.take(m).last() == t[m - 1]);
        lemma_digits_value_nonneg(a, radix);
        let v = digits_value(a, radix);
        assert(v * radix >= v) by (nonlinear_arith)
            requires
                v >= 0,
                radix >= 1,
        ;
    }
}

/// The value of digits is not negative.
proof fn lemma_digits_value_nonneg(t: Seq<u8>, radix: int)
    requires
        radix >= 1,
        forall|j: int| 0 <= j < t.len() ==> 0 <= digit_value(#[trigger] t[j]),
    ensures
        digits_value(t, radix) >= 0,
    decreases t.len(),
{
    if t.len() > 0 {
        assert forall|j: int| 0 <= j < t.drop_last().len() implies 0 <= digit_value(#[trigger] t.drop_last()[j]) by {
            assert(t.drop_last()[j] == t[j]);
        }
        lemma_digits_value_nonneg(t.drop_last(), radix);
        let v = digits_value(t.drop_last(), radix);
        assert(v * radix >= 0) by (nonlinear_arith)
            requires
                v >= 0,
                radix >= 1,
        ;
    }
}

/// The value of a number literal (see [`number_value`]): the base comes
/// from the prefix, the longest run of valid digits is read, and a value
/// too large for 64 bits gives nothing.
pub fn parse_number(tok: &[u8]) -> (r: Option<u64>)
    ensures
        r == number_value(tok@),
{
    if !is_utf8(tok) {
        return None;
    }
    let ghost t = tok@;
    let (radix, start): (u64, usize) = if tok.len() >= 2 && tok[0] == 48 && (tok[1] == 120 || tok[1] == 88) {
        (16, 2)
    } else if tok.len() > 1 && tok[0] == 48 {
        (8, 0)
    } else {
        (10, 0)
    };
    assert(number_radix(t) == (radix as int, start as int));
    let ghost digits = t.subrange(start as int, t.len() as int);
    let mut value: u64 = 0;
    let mut i: usize = start;
    let mut consumed: usize = 0;
    loop
        invariant
            start <= i <= tok@.len(),
            consumed == i - start,
            t == tok@,
            digits == t.subrange(start as int, t.len() as int),
            radix == 8 || radix == 10 || radix == 16,
            number_radix(t) == (radix as int, start as int),
            forall|j: int| 0 <= j < consumed ==> 0 <= digit_value(#[trigger] digits[j]) < radix,
            value == digits_value(digits.take(consumed as int), radix as int),
            vstd::utf8::valid_utf8(t),
        ensures
            start <= i <= tok@.len(),
            consumed == i - start,
            forall|j: int| 0 <= j < consumed ==> 0 <= digit_value(#[trigger] digits[j]) < radix,
            value == digits_value(digits.take(consumed as int), radix as int),
            i < tok@.len() ==> digit_value(digits[consumed as int]) >= radix,
        decreases tok@.len() - i,
    {
        if i >= tok.len() {
            break;
        }
        let b = tok[i];
        let d: u64 = if 48 <= b && b <= 57 {
            (b - 48) as u64
        } else if 97 <= b && b <= 102 {
            (b - 97 + 10) as u64
        } else if 65 <= b && b <= 70 {
            (b - 65 + 10) as u64
        } else {
            99
        };
        assert(digits[consumed as int] == b);
        assert(d == digit_value(b));
        if d >= radix {
            break;
        }
        proof {
            let nxt = digits.take(consumed + 1);
            assert(nxt.drop_last() =~= digits.take(consumed as int));
            assert(nxt.last() == b);
        }
        let m = value.checked_mul(radix);
        match m {
            None => {
                proof {
                    assert forall|j: int| 0 <= j < consumed + 1 implies 0 <= digit_value(#[trigger] digits[j]) < radix by {
                    }
                    lemma_digit_run_at_least(digits, radix as int, consumed + 1);
                    let n = digit_run(digits, radix as int);
                    lemma_digit_run_valid(digits, radix as int);
                    lemma_digits_value_mono(digits, radix as int, consumed + 1, n as int);
                    lemma_digits_value_nonneg(digits.take(consumed as int), radix as int);
                    assert(value * radix > u64::MAX);
                    assert(digits_value(digits.take(consumed + 1), radix as int) >= value * radix);
                    assert(digits_value(digits.take(n as int), radix as int) > u64::MAX);
                    assert(number_radix(t).0 == radix as int);
                    assert(number_value(t) is None);
                }
                return None;
            },
            Some(mv) => {
                let a = mv.checked_add(d);
                match a {
                    None => {
                        proof {
                            assert forall|j: int| 0 <= j < consumed + 1 implies 0 <= digit_value(#[trigger] digits[j]) < radix by {
                            }
                            lemma_digit_run_at_least(digits, radix as int, consumed + 1);
                            let n = digit_run(digits, radix as int);
                            lemma_digit_run_valid(digits, radix as int);
                            lemma_digits_value_mono(digits, radix as int, consumed + 1, n as int);
                            assert(digits_value(digits.take(consumed + 1), radix as int) > u64::MAX);
                            assert(digits_value(digits.take(n as int), radix as int) > u64::MAX);
                            assert(number_value(t) is None);
                        }
                        return None;
                    },
                    Some(nv) => {
                        value = nv;
                    },
                }
            },
        }
        i += 1;
        consumed += 1;
    }
    proof {
        lemma_digit_run(digits, radix as int, consumed as int);
    }
    if consumed == 0 {
        return None;
    }
    Some(value)
}

/// Every position within the digit run holds a valid digit.
proof fn lemma_digit_run_valid(t: Seq<u8>, radix: int)
    ensures
        digit_run(t, radix) <= t.len(),
        forall|j: int| 0 <= j < digit_run(t, radix) ==> digit_value(#[trigger] t[j]) < radix,
    decreases t.len(),
{
    if t.len() > 0 && digit_value(t[0]) < radix {
        lemma_digit_run_valid(t.drop_first(), radix);
        assert forall|j: int| 0 <= j < digit_run(t, radix) implies digit_value(#[trigger] t[j]) < radix by {
            if j > 0 {
                assert(t[j] == t.drop_first()[j - 1]);
            }
        }
    }
}

/// A run of `k` valid digits makes the digit run at least `k` long.
proof fn lemma_digit_run_at_least(t: Seq<u8>, radix: int, k: int)
    requires
        0 <= k <= t.len(),
        forall|j: int| 0 <= j < k ==> digit_value(#[trigger] t[j]) < radix,
    ensures
        digit_run(t, radix) >= k,
    decreases k,
{
    if k > 0 {
        assert forall|j: int| 0 <= j < k - 1 implies digit_value(#[trigger] t.drop_first()[j]) < radix by {
            assert(t.drop_first()[j] == t[j + 1]);
        }
        lemma_digit_run_at_least(t.drop_first(), radix, k - 1);
    }
}


impl PcodeLexer {
    /// Shift the lookahead by one character: the first lookahead becomes
    /// the current character and the next character of the text (0 past its
    /// end) becomes the second.
    fn shift(&mut self)
        requires
            old(self).wf(),
        ensures
            final(self).wf(),
            final(self).shifted@ == old(self).shifted@ + 1,
            final(self).curchar == char_at(old(self).buf@, old(self).shifted@ as int),
            final(self).buf == old(self).buf,
            final(self).curstate == old(self).curstate,
            final(self).curtoken == old(self).curtoken,
            final(self).endofstreamsent == old(self).endofstreamsent,
    {
        self.curchar = self.lookahead1;
        self.lookahead1 = self.lookahead2;
        if self.endofstream {
            self.lookahead2 = 0;
        } else {
            match self.stream_get() {
                Some(c) => self.lookahead2 = c,
                None => {
                    self.endofstream = true;
                    self.lookahead2 = 0;
                },
            }
        }
        self.shifted = Ghost(self.shifted@ + 1);
    }

    /// Read the next token: run the state machine until it completes one,
    /// then classify it (keyword, identifier, number, end, punctuation).
    /// Every token but the last makes progress.
    pub fn get_next_token(&mut self) -> (r: Lexeme)
        requires
            old(self).wf(),
        ensures
            final(self).wf(),
            final(self).buf == old(self).buf,
            !(r is Eof) ==> final(self).measure() < old(self).measure(),
            r matches Lexeme::Keyword(i) ==> i < NUM_IDENTS,
            ({
                let n = next_lexeme(
                    old(self).buf@,
                    (old(self).shifted@ as int, old(self).curstate, old(self).curtoken@, old(self).endofstreamsent),
                );
                &&& lexeme_model(r) == n.0
                &&& final(self).shifted@ as int == n.1.0
                &&& final(self).curstate == n.1.1
                &&& final(self).curtoken@ == n.1.2
                &&& final(self).endofstreamsent == n.1.3
            }),
    {
        let mut tok = LexState::Start;
        let ghost sc0 = scan(self.buf@, self.shifted@ as int, self.curstate, self.curtoken@);
        loop
            invariant_except_break
                sc0 == scan(self.buf@, self.shifted@ as int, self.curstate, self.curtoken@),
            invariant
                self.wf(),
                self.buf == old(self).buf,
                self.endofstreamsent == old(self).endofstreamsent,
                self.measure() <= old(self).measure(),
                sc0 == scan(old(self).buf@, old(self).shifted@ as int, old(self).curstate, old(self).curtoken@),
            ensures
                self.wf(),
                self.buf == old(self).buf,
                self.endofstreamsent == old(self).endofstreamsent,
                self.measure() <= old(self).measure(),
                tok != LexState::Start,
                tok != LexState::Endstream ==> self.measure() < old(self).measure(),
                sc0 == (tok, self.shifted@ as int, self.curstate, self.curtoken@, self.curchar),
            decreases self.measure(),
        {
            let ghost before = self.measure();
            let ghost g = self.shifted@ as int;
            let ghost st = self.curstate;
            let ghost tk = self.curtoken@;
            self.shift();
            let t = self.move_state();
            proof {
                let len = self.buf@.len() as int;
                if g >= len {
                    assert(self.curchar == 0);
                }
                if g + 1 >= len {
                    assert(self.lookahead1 == 0);
                }
                assert(self.curchar == char_at(self.buf@, g));
                assert(self.lookahead1 == char_at(self.buf@, g + 1));
                assert(self.lookahead2 == char_at(self.buf@, g + 2));
            }
            if t != LexState::Start {
                tok = t;
                break;
            }
            proof {
                assert(self.measure() < before);
                assert(scan_measure(self.buf@.len() as int, g + 1, self.curstate) < scan_measure(self.buf@.len() as int, g, st));
            }
        }
        match tok {
            LexState::Identifier => {
                match Self::find_identifier(self.curtoken.as_slice()) {
                    Some(idx) => Lexeme::Keyword(idx),
                    None => Lexeme::Identifier(vstd::slice::slice_to_vec(self.curtoken.as_slice())),
                }
            },
            LexState::Hexstring | LexState::Decstring => {
                match parse_number(self.curtoken.as_slice()) {
                    Some(n) => Lexeme::Integer(n),
                    None => Lexeme::BadInteger,
                }
            },
            LexState::Endstream => {
                if !self.endofstreamsent {
                    self.endofstreamsent = true;
                    Lexeme::Endofstream
                } else {
                    Lexeme::Eof
                }
            },
            LexState::Illegal => Lexeme::Eof,
            _ => Lexeme::Char(self.curchar),
        }
    }
}


/// What a lexeme says, with an identifier's text by its bytes.
pub enum LexemeModel {
    /// A keyword, by its index in the keyword table.
    Keyword(int),
    /// Another identifier.
    Identifier(Seq<u8>),
    /// A number.
    Integer(u64),
    /// A number too large for 64 bits.
    BadInteger,
    /// The end of the text.
    Endofstream,
    /// Nothing more.
    Eof,
    /// A punctuation character.
    Char(u8),
}

/// What lexeme `l` says.
pub open spec fn lexeme_model(l: Lexeme) -> LexemeModel {
    match l {
        Lexeme::Keyword(k) => LexemeModel::Keyword(k as int),
        Lexeme::Identifier(t) => LexemeModel::Identifier(t@),
        Lexeme::Integer(n) => LexemeModel::Integer(n),
        Lexeme::BadInteger => LexemeModel::BadInteger,
        Lexeme::Endofstream => LexemeModel::Endofstream,
        Lexeme::Eof => LexemeModel::Eof,
        Lexeme::Char(c) => LexemeModel::Char(c),
    }
}

/// The measure that bounds the steps of one token: five per character
/// still to shift in (and three past the end), plus the state's weight.
pub open spec fn scan_measure(len: int, g: int, st: LexState) -> nat {
    (5 * (if len + 3 - g > 0 { len + 3 - g } else { 0 }) + state_weight(st)) as nat
}

/// Run the character state machine over `buf` from `g` characters shifted
/// in, state `st` and token text `tok`, up to the step that completes a
/// token: the kind of token, the characters shifted in then, the new state,
/// the token text and the last character shifted in.
pub open spec fn scan(buf: Seq<u8>, g: int, st: LexState, tok: Seq<u8>) -> (LexState, int, LexState, Seq<u8>, u8)
    decreases scan_measure(buf.len() as int, g, st),
{
    let c = char_at(buf, g);
    let step = move_step(st, c, char_at(buf, g + 1), char_at(buf, g + 2));
    let ntok = if step.2 == 1 {
        seq![c]
    } else if step.2 == 2 {
        tok.push(c)
    } else {
        tok
    };
    if step.1 != LexState::Start {
        (step.1, g + 1, step.0, ntok, c)
    } else if scan_measure(buf.len() as int, g + 1, step.0) < scan_measure(buf.len() as int, g, st) {
        scan(buf, g + 1, step.0, ntok)
    } else {
        (LexState::Illegal, g + 1, step.0, ntok, c)
    }
}

/// The lexeme a completed token of kind `t` with text `tok` and last
/// character `c` gives, and whether the end has been reported after it:
/// identifiers are looked up among the keywords, numbers read, the end
/// reported once and then nothing more, an illegal character ends the
/// text, and anything else is the punctuation character.
pub open spec fn classify(t: LexState, tok: Seq<u8>, c: u8, sent: bool) -> (LexemeModel, bool) {
    match t {
        LexState::Identifier => match ident_search(tok, 0, NUM_IDENTS - 1) {
            Some(i) => (LexemeModel::Keyword(i), sent),
            None => (LexemeModel::Identifier(tok), sent),
        },
        LexState::Hexstring | LexState::Decstring => match number_value(tok) {
            Some(n) => (LexemeModel::Integer(n), sent),
            None => (LexemeModel::BadInteger, sent),
        },
        LexState::Endstream => if !sent {
            (LexemeModel::Endofstream, true)
        } else {
            (LexemeModel::Eof, true)
        },
        LexState::Illegal => (LexemeModel::Eof, sent),
        _ => (LexemeModel::Char(c), sent),
    }
}

/// The lexer's state between tokens: characters shifted in, machine state,
/// token text, and whether the end has been reported.
pub type LexPoint = (int, LexState, Seq<u8>, bool);

/// The next lexeme from lexer state `p` over `buf`, and the state after it.
pub open spec fn next_lexeme(buf: Seq<u8>, p: LexPoint) -> (LexemeModel, LexPoint) {
    let sc = scan(buf, p.0, p.1, p.2);
    let cl = classify(sc.0, sc.3, sc.4, p.3);
    (cl.0, (sc.1, sc.2, sc.3, cl.1))
}

/// The lexemes from lexer state `p` over `buf`, up to (not including) the
/// first `Eof`, reading at most `fuel` of them.
pub open spec fn lex_from(buf: Seq<u8>, p: LexPoint, fuel: nat) -> Seq<LexemeModel>
    decreases fuel,
{
    if fuel == 0 {
        Seq::empty()
    } else {
        let n = next_lexeme(buf, p);
        if n.0 is Eof {
            Seq::empty()
        } else {
            seq![n.0] + lex_from(buf, n.1, (fuel - 1) as nat)
        }
    }
}

/// The lexeme measure of a lexer state (see [`PcodeLexer::measure`]).
pub open spec fn point_measure(len: int, p: LexPoint) -> nat {
    (scan_measure(len, p.0, p.1) + (if p.3 { 0int } else { 1int })) as nat
}

/// The lexemes of `buf`, up to (not including) the first `Eof`.  Each
/// lexeme but the last shrinks the measure, so the fuel never runs out
/// before the `Eof`.
pub open spec fn lexemes_of(buf: Seq<u8>) -> Seq<LexemeModel> {
    let p: LexPoint = (0, LexState::Start, Seq::empty(), false);
    lex_from(buf, p, point_measure(buf.len() as int, p))
}

/// Read all the tokens of `buf`, up to (not including) the first `Eof`.
pub fn lex_all(buf: &[u8]) -> (r: Vec<Lexeme>)
    ensures
        forall|i: int| 0 <= i < r@.len() ==> !(#[trigger] r@[i] is Eof),
        forall|i: int| 0 <= i < r@.len() ==> (#[trigger] r@[i] matches Lexeme::Keyword(k) ==> k < NUM_IDENTS),
        r@.map_values(|l: Lexeme| lexeme_model(l)) == lexemes_of(buf@),
{
    let mut lex = PcodeLexer::initialize(buf);
    let mut out: Vec<Lexeme> = Vec::new();
    let ghost b = buf@;
    let ghost mut fuel: nat = point_measure(b.len() as int, (0, LexState::Start, Seq::empty(), false));
    proof {
        assert(lex.curtoken@ =~= Seq::<u8>::empty());
        assert(out@.map_values(|l: Lexeme| lexeme_model(l)) =~= Seq::<LexemeModel>::empty());
    }
    loop
        invariant_except_break
            fuel >= lex.measure(),
            out@.map_values(|l: Lexeme| lexeme_model(l)) + lex_from(
                b,
                (lex.shifted@ as int, lex.curstate, lex.curtoken@, lex.endofstreamsent),
                fuel,
            ) == lexemes_of(b),
        invariant
            lex.wf(),
            lex.buf@ == b,
            b == buf@,
            forall|i: int| 0 <= i < out@.len() ==> !(#[trigger] out@[i] is Eof),
            forall|i: int| 0 <= i < out@.len() ==> (#[trigger] out@[i] matches Lexeme::Keyword(k) ==> k < NUM_IDENTS),
        ensures
            out@.map_values(|l: Lexeme| lexeme_model(l)) == lexemes_of(b),
        decreases lex.measure(),
    {
        let ghost p: LexPoint = (lex.shifted@ as int, lex.curstate, lex.curtoken@, lex.endofstreamsent);
        let ghost m0 = lex.measure();
        let t = lex.get_next_token();
        if let Lexeme::Eof = t {
            proof {
                assert(lex_from(b, p, fuel) =~= Seq::<LexemeModel>::empty());
                assert(out@.map_values(|l: Lexeme| lexeme_model(l)) + Seq::<LexemeModel>::empty()
                    =~= out@.map_values(|l: Lexeme| lexeme_model(l)));
            }
            break;
        }
        proof {
            let n = next_lexeme(b, p);
            assert(fuel >= 1);
            assert(lex_from(b, p, fuel) == seq![n.0] + lex_from(b, n.1, (fuel - 1) as nat));
            assert(out@.push(t).map_values(|l: Lexeme| lexeme_model(l))
                =~= out@.map_values(|l: Lexeme| lexeme_model(l)) + seq![n.0]);
            assert(out@.map_values(|l: Lexeme| lexeme_model(l)) + (seq![n.0] + lex_from(b, n.1, (fuel - 1) as nat))
                =~= out@.map_values(|l: Lexeme| lexeme_model(l)) + seq![n.0] + lex_from(b, n.1, (fuel - 1) as nat));
            fuel = (fuel - 1) as nat;
        }
        out.push(t);
    }
    out
}


/// Does every space the symbol names have a nonzero word size?
pub open spec fn sym_ok(sym: SnippetSymbol) -> bool {
    match sym {
        SnippetSymbol::Space(spc, _) => spc.word_size > 0,
        SnippetSymbol::Varnode(v) => v.space.word_size > 0,
        _ => true,
    }
}

impl SnippetSymbol {
    /// A copy of the symbol.
    pub fn duplicate(&self) -> (r: SnippetSymbol)
        ensures
            r.spec_name() == self.spec_name(),
            symbol_varnode(r, AddrSpace { index: 0, space_type: SpaceType::Constant, big_endian: false, addr_size: 0, word_size: 1 }) == symbol_varnode(*self, AddrSpace { index: 0, space_type: SpaceType::Constant, big_endian: false, addr_size: 0, word_size: 1 }),
            forall|cs: AddrSpace| #[trigger] symbol_varnode(r, cs) == symbol_varnode(*self, cs),
            sym_ok(r) == sym_ok(*self),
            r is Space <==> self is Space,
            r is UserOp <==> self is UserOp,
            r is Varnode <==> self is Varnode,
            r is Operand <==> self is Operand,
            r matches SnippetSymbol::Space(spc, _) ==> self matches SnippetSymbol::Space(spc2, _) && spc == spc2,
            r matches SnippetSymbol::UserOp(u) ==> self matches SnippetSymbol::UserOp(u2) && u.index == u2.index,
    {
        match self {
            SnippetSymbol::Space(spc, nm) => SnippetSymbol::Space(*spc, vstd::slice::slice_to_vec(nm.as_slice())),
            SnippetSymbol::UserOp(u) => SnippetSymbol::UserOp(
                UserOpSymbol { name: vstd::slice::slice_to_vec(u.name.as_slice()), index: u.index },
            ),
            SnippetSymbol::Varnode(v) => SnippetSymbol::Varnode(
                VarnodeSymbol {
                    name: vstd::slice::slice_to_vec(v.name.as_slice()),
                    space: v.space,
                    offset: v.offset,
                    size: v.size,
                },
            ),
            SnippetSymbol::Operand(h, nm) => SnippetSymbol::Operand(*h, vstd::slice::slice_to_vec(nm.as_slice())),
            SnippetSymbol::Start(nm) => SnippetSymbol::Start(vstd::slice::slice_to_vec(nm.as_slice())),
            SnippetSymbol::End(nm) => SnippetSymbol::End(vstd::slice::slice_to_vec(nm.as_slice())),
            SnippetSymbol::Next2(nm) => SnippetSymbol::Next2(vstd::slice::slice_to_vec(nm.as_slice())),
            SnippetSymbol::FlowDest(nm) => SnippetSymbol::FlowDest(vstd::slice::slice_to_vec(nm.as_slice())),
            SnippetSymbol::FlowRef(nm) => SnippetSymbol::FlowRef(vstd::slice::slice_to_vec(nm.as_slice())),
        }
    }
}

impl LabelSymbol {
    /// A copy of the label.
    pub fn duplicate(&self) -> (r: LabelSymbol)
        ensures
            r.name@ == self.name@,
            r.index == self.index,
            r.isplaced == self.isplaced,
            r.refcount == self.refcount,
    {
        LabelSymbol {
            name: vstd::slice::slice_to_vec(self.name.as_slice()),
            index: self.index,
            isplaced: self.isplaced,
            refcount: self.refcount,
        }
    }
}

/// A named address space of a language.
#[derive(Debug, Clone)]
pub struct SpaceEntry {
    /// The space's name.
    pub name: Vec<u8>,
    /// The space.
    pub space: AddrSpace,
}

/// What a snippet needs of its language: the spaces (by index), the
/// default code, constant and unique spaces, and the global symbols.
#[derive(Debug)]
pub struct SnippetLanguage {
    /// The address spaces, in index order.
    pub spaces: Vec<SpaceEntry>,
    /// The global symbols.
    pub symbols: Vec<SnippetSymbol>,
    /// The default code space.
    pub default_code_space: AddrSpace,
    /// The constant space.
    pub constant_space: AddrSpace,
    /// The unique (temporary) space.
    pub unique_space: AddrSpace,
}

impl SnippetLanguage {
    /// Does every space of the language have a nonzero word size?
    pub open spec fn wf(&self) -> bool {
        &&& self.default_code_space.word_size > 0
        &&& self.constant_space.word_size > 0
        &&& self.unique_space.word_size > 0
        &&& forall|i: int| 0 <= i < self.spaces@.len() ==> (#[trigger] self.spaces@[i]).space.word_size > 0
        &&& forall|i: int| 0 <= i < self.symbols@.len() ==> sym_ok(#[trigger] self.symbols@[i])
    }

    /// A language with the given special spaces and no spaces or symbols
    /// listed yet.
    pub fn new(default_code_space: AddrSpace, constant_space: AddrSpace, unique_space: AddrSpace) -> (r: SnippetLanguage)
        ensures
            r.spaces@.len() == 0,
            r.symbols@.len() == 0,
            r.default_code_space == default_code_space,
            r.constant_space == constant_space,
            r.unique_space == unique_space,
    {
        SnippetLanguage { spaces: Vec::new(), symbols: Vec::new(), default_code_space, constant_space, unique_space }
    }

    /// List a space (the next index).
    pub fn add_space(&mut self, name: &[u8], space: AddrSpace)
        ensures
            final(self).spaces@.len() == old(self).spaces@.len() + 1,
            final(self).spaces@.drop_last() == old(self).spaces@,
            final(self).spaces@.last().name@ == name@,
            final(self).spaces@.last().space == space,
            final(self).symbols == old(self).symbols,
            final(self).default_code_space == old(self).default_code_space,
            final(self).constant_space == old(self).constant_space,
            final(self).unique_space == old(self).unique_space,
    {
        self.spaces.push(SpaceEntry { name: vstd::slice::slice_to_vec(name), space });
    }

    /// Add a global symbol.
    pub fn add_symbol(&mut self, sym: SnippetSymbol)
        ensures
            final(self).symbols@ == old(self).symbols@.push(sym),
            final(self).spaces == old(self).spaces,
            final(self).default_code_space == old(self).default_code_space,
            final(self).constant_space == old(self).constant_space,
            final(self).unique_space == old(self).unique_space,
    {
        self.symbols.push(sym);
    }

    /// The position of the first global symbol named `name`, if any.
    pub fn find_snippet_symbol(&self, name: &[u8]) -> (r: Option<usize>)
        ensures
            r matches Some(i) ==> i < self.symbols@.len() && self.symbols@[i as int].spec_name() == name@,
            r is None ==> forall|i: int| 0 <= i < self.symbols@.len() ==> (#[trigger] self.symbols@[i]).spec_name() != name@,
    {
        let mut i: usize = 0;
        while i < self.symbols.len()
            invariant
                i <= self.symbols@.len(),
                forall|j: int| 0 <= j < i ==> (#[trigger] self.symbols@[j]).spec_name() != name@,
            decreases self.symbols@.len() - i,
        {
            if crate::pcodecompile::bytes_eq(self.symbols[i].name(), name) {
                return Some(i);
            }
            i += 1;
        }
        None
    }

    /// The default code space.
    pub fn get_default_code_space(&self) -> (r: AddrSpace)
        ensures
            r == self.default_code_space,
    {
        self.default_code_space
    }

    /// The constant space.
    pub fn get_constant_space(&self) -> (r: AddrSpace)
        ensures
            r == self.constant_space,
    {
        self.constant_space
    }

    /// The unique space.
    pub fn get_unique_space(&self) -> (r: AddrSpace)
        ensures
            r == self.unique_space,
    {
        self.unique_space
    }

    /// The number of spaces.
    pub fn num_spaces(&self) -> (r: usize)
        ensures
            r == self.spaces@.len(),
    {
        self.spaces.len()
    }

    /// Space number `i`, if there is one.
    pub fn get_space(&self, i: usize) -> (r: Option<AddrSpace>)
        ensures
            i < self.spaces@.len() ==> r == Some(self.spaces@[i as int].space),
            i >= self.spaces@.len() ==> r is None,
    {
        if i < self.spaces.len() {
            Some(self.spaces[i].space)
        } else {
            None
        }
    }
}


/// Does a scope entry name only spaces with a nonzero word size?
pub open spec fn local_ok(l: SnippetLocal) -> bool {
    l matches SnippetLocal::Symbol(s) ==> sym_ok(s)
}

/// Do all entries of the scope name only spaces with a nonzero word size?
pub open spec fn scope_ok(tree: Seq<ScopeEntry>) -> bool {
    forall|i: int| 0 <= i < tree.len() ==> local_ok(#[trigger] tree[i].local)
}


/// A token as the parser sees it: a lexeme with identifiers resolved
/// against the snippet's scope and the language.
#[derive(Debug)]
pub enum Token {
    /// A keyword or operator of the keyword table, by index.
    Key(usize),
    /// A number.
    Integer(u64),
    /// A number too large for 64 bits.
    BadInteger,
    /// The end of the text.
    Endofstream,
    /// Nothing more.
    Eof,
    /// A punctuation character.
    Char(u8),
    /// A name that is no symbol.
    Str(Vec<u8>),
    /// A symbol of the scope or the language.
    Sym(SnippetSymbol),
    /// A label of the scope.
    LabelSym(LabelSymbol),
}

/// Is the token well formed: a keyword index inside the table, a symbol
/// naming usable spaces?
pub open spec fn token_ok(t: Token) -> bool {
    &&& (t matches Token::Key(i) ==> i < NUM_IDENTS)
    &&& (t matches Token::Sym(s) ==> sym_ok(s))
}

/// A snippet compiler for one language: the builder state, and the
/// template of the last successful parse.
pub struct PcodeSnippet<'a> {
    /// The language.
    pub sleigh: &'a SnippetLanguage,
    /// The builder, with the snippet's scope and errors.
    pub compile: PcodeCompile,
    /// The template of the last successful parse.
    pub result: Option<ConstructTpl>,
}

/// Is `t` one of the kinds of space a snippet names by symbol: constant,
/// processor, space-base or internal?
pub open spec fn named_space_type(t: SpaceType) -> bool {
    t == SpaceType::Constant || t == SpaceType::Processor || t == SpaceType::Spacebase || t == SpaceType::Internal
}

impl<'a> PcodeSnippet<'a> {
    /// Are the language and the builder usable?
    pub open spec fn wf(&self) -> bool {
        &&& self.sleigh.wf()
        &&& self.compile.wf()
    }

    /// Put `local` in the scope under `name`, replacing an entry of that
    /// name.
    fn set_local(&mut self, name: &[u8], local: SnippetLocal)
        requires
            old(self).wf(),
            local_ok(local),
        ensures
            final(self).wf(),
            final(self).sleigh == old(self).sleigh,
            final(self).result == old(self).result,
            scope_has(final(self).compile.tree@, name@),
            (PcodeCompile { tree: old(self).compile.tree, ..final(self).compile }) == old(self).compile,
    {
        match self.compile.find_local(name) {
            Some(i) => {
                self.compile.tree.set(i, ScopeEntry { name: vstd::slice::slice_to_vec(name), local });
                proof {
                    assert(self.compile.tree@[i as int].name@ == name@);
                }
            },
            None => {
                self.compile.tree.push(ScopeEntry { name: vstd::slice::slice_to_vec(name), local });
                proof {
                    assert(self.compile.tree@.last().name@ == name@);
                }
            },
        }
    }

    /// A snippet compiler for `slgh`: every constant, processor, space-base
    /// and internal space is a symbol, as are `inst_dest` and `inst_ref`.
    pub fn new(slgh: &'a SnippetLanguage) -> (r: PcodeSnippet<'a>)
        requires
            slgh.wf(),
        ensures
            r.wf(),
            r.sleigh == slgh,
            r.compile.defaultspace == slgh.default_code_space,
            r.compile.constantspace == slgh.constant_space,
            r.compile.uniqspace == slgh.unique_space,
            r.compile.errorcount == 0,
            r.compile.tempbase == 0,
            r.compile.local_labelcount == 0,
            !r.compile.enforce_local_key,
            r.result is None,
    {
        let compile = PcodeCompile::new(slgh.default_code_space, slgh.constant_space, slgh.unique_space);
        let mut snip = PcodeSnippet { sleigh: slgh, compile, result: None };
        let num = slgh.num_spaces();
        let mut i: usize = 0;
        while i < num
            invariant
                snip.wf(),
                snip.sleigh == slgh,
                num == slgh.spaces@.len(),
                snip.compile.defaultspace == slgh.default_code_space,
                snip.compile.constantspace == slgh.constant_space,
                snip.compile.uniqspace == slgh.unique_space,
                snip.compile.errorcount == 0,
                snip.compile.tempbase == 0,
                snip.compile.local_labelcount == 0,
                !snip.compile.enforce_local_key,
                snip.result is None,
            decreases num - i,
        {
            let spc = slgh.spaces[i].space;
            if named_space_type_exec(spc.space_type) {
                let nm = vstd::slice::slice_to_vec(slgh.spaces[i].name.as_slice());
                snip.set_local(slgh.spaces[i].name.as_slice(), SnippetLocal::Symbol(SnippetSymbol::Space(spc, nm)));
            }
            i += 1;
        }
        let dest = "inst_dest".as_bytes();
        snip.add_local(dest, SnippetLocal::Symbol(SnippetSymbol::FlowDest(vstd::slice::slice_to_vec(dest))));
        let rf = "inst_ref".as_bytes();
        snip.add_local(rf, SnippetLocal::Symbol(SnippetSymbol::FlowRef(vstd::slice::slice_to_vec(rf))));
        snip.compile.errorcount = 0;
        snip.compile.firsterror = Vec::new();
        snip
    }

    /// Add an entry to the scope; a name already there is reported as a
    /// duplicate.
    pub fn add_local(&mut self, name: &[u8], local: SnippetLocal)
        requires
            old(self).wf(),
            local_ok(local),
        ensures
            final(self).wf(),
            final(self).sleigh == old(self).sleigh,
            final(self).result == old(self).result,
            final(self).compile.tempbase == old(self).compile.tempbase,
            final(self).compile.defaultspace == old(self).compile.defaultspace,
            final(self).compile.constantspace == old(self).compile.constantspace,
            final(self).compile.uniqspace == old(self).compile.uniqspace,
            final(self).compile.local_labelcount == old(self).compile.local_labelcount,
            final(self).compile.enforce_local_key == old(self).compile.enforce_local_key,
            final(self).compile.errorcount >= old(self).compile.errorcount,
            scope_has(old(self).compile.tree@, name@) ==> final(self).compile.reported(
                old(self).compile,
                "Duplicate symbol name: ".spec_bytes() + name@,
            ),
            !scope_has(old(self).compile.tree@, name@) ==> {
                &&& final(self).compile.tree@.drop_last() == old(self).compile.tree@
                &&& final(self).compile.tree@.last().name@ == name@
                &&& final(self).compile.tree@.last().local == local
                &&& (PcodeCompile { tree: old(self).compile.tree, ..final(self).compile }) == old(self).compile
            },
    {
        self.compile.add_local(name, local);
    }

    /// Start temporaries at offset `val`.
    pub fn set_unique_base(&mut self, val: u32)
        ensures
            final(self).compile == (PcodeCompile { tempbase: val, ..old(self).compile }),
            final(self).sleigh == old(self).sleigh,
            final(self).result == old(self).result,
    {
        self.compile.tempbase = val;
    }

    /// The offset of the next temporary.
    pub fn get_unique_base(&self) -> (r: u32)
        ensures
            r == self.compile.tempbase,
    {
        self.compile.tempbase
    }

    /// Has an error been reported?
    pub fn has_errors(&self) -> (r: bool)
        ensures
            r == (self.compile.errorcount != 0),
    {
        self.compile.errorcount != 0
    }

    /// The first error reported.
    pub fn get_error_message(&self) -> (r: &[u8])
        ensures
            r@ == self.compile.firsterror@,
    {
        self.compile.firsterror.as_slice()
    }

    /// Take the template of the last successful parse.
    pub fn release_result(&mut self) -> (r: Option<ConstructTpl>)
        ensures
            r == old(self).result,
            final(self).result is None,
            final(self).compile == old(self).compile,
            final(self).sleigh == old(self).sleigh,
    {
        self.result.take()
    }

    /// Add operand `name` of the constructor, with handle `index`.
    pub fn add_operand(&mut self, name: &[u8], index: i32)
        requires
            old(self).wf(),
        ensures
            final(self).wf(),
            final(self).sleigh == old(self).sleigh,
            final(self).result == old(self).result,
            !scope_has(old(self).compile.tree@, name@) ==> {
                &&& final(self).compile.tree@ == old(self).compile.tree@.push(final(self).compile.tree@.last())
                &&& final(self).compile.tree@.last().name@ == name@
                &&& (final(self).compile.tree@.last().local matches SnippetLocal::Symbol(
                    SnippetSymbol::Operand(h, nm),
                ) && h == index && nm@ == name@)
            },
            final(self).compile.errorcount >= old(self).compile.errorcount,
    {
        self.compile.add_local(name, SnippetLocal::Symbol(SnippetSymbol::Operand(index, vstd::slice::slice_to_vec(name))));
        proof {
            if !scope_has(old(self).compile.tree@, name@) {
                assert(self.compile.tree@ =~= old(self).compile.tree@.push(self.compile.tree@.last()));
            }
        }
    }

    /// Reset for a new parse: keep only the space symbols of the scope, drop
    /// the result and the errors, restart label numbering (temporaries go
    /// on where they were).
    pub fn clear(&mut self)
        requires
            old(self).wf(),
        ensures
            final(self).wf(),
            final(self).sleigh == old(self).sleigh,
            final(self).result is None,
            final(self).compile.errorcount == 0,
            final(self).compile.firsterror@.len() == 0,
            final(self).compile.local_labelcount == 0,
            final(self).compile.tempbase == old(self).compile.tempbase,
            forall|i: int| 0 <= i < final(self).compile.tree@.len() ==> (#[trigger] final(self).compile.tree@[i]).local
                matches SnippetLocal::Symbol(SnippetSymbol::Space(_, _)),
    {
        let mut old_tree: Vec<ScopeEntry> = Vec::new();
        std::mem::swap(&mut old_tree, &mut self.compile.tree);
        let mut kept: Vec<ScopeEntry> = Vec::new();
        while old_tree.len() > 0
            invariant
                scope_ok(old_tree@),
                scope_ok(kept@),
                forall|i: int| 0 <= i < kept@.len() ==> (#[trigger] kept@[i]).local matches SnippetLocal::Symbol(SnippetSymbol::Space(_, _)),
            decreases old_tree@.len(),
        {
            let ghost before = old_tree@;
            let e = old_tree.remove(0);
            proof {
                assert(local_ok(before[0].local));
                assert forall|i: int| 0 <= i < old_tree@.len() implies local_ok(#[trigger] old_tree@[i].local) by {
                    assert(old_tree@[i] == before[i + 1]);
                }
            }
            let is_space = match &e.local {
                SnippetLocal::Symbol(SnippetSymbol::Space(_, _)) => true,
                _ => false,
            };
            if is_space {
                let ghost k0 = kept@;
                kept.push(e);
                proof {
                    assert forall|i: int| 0 <= i < kept@.len() implies local_ok(#[trigger] kept@[i].local) by {
                        if i < k0.len() {
                            assert(kept@[i] == k0[i]);
                        }
                    }
                }
            }
        }
        self.compile.tree = kept;
        self.result = None;
        self.compile.errorcount = 0;
        self.compile.firsterror = Vec::new();
        self.compile.reset_label_count();
    }

    /// The token of identifier `name`: a label or symbol of the scope, else
    /// a symbol of the language, else a plain name.
    pub fn classify_identifier(&self, name: &[u8]) -> (r: Token)
        requires
            self.wf(),
        ensures
            token_ok(r),
            r matches Token::Str(nm) ==> nm@ == name@ && !scope_has(self.compile.tree@, name@),
            r matches Token::LabelSym(l) ==> scope_has(self.compile.tree@, name@),
            r matches Token::Sym(sy) ==> sy.spec_name() == name@ || scope_has(self.compile.tree@, name@),
            !(r is Key) && !(r is Integer) && !(r is BadInteger) && !(r is Endofstream) && !(r is Eof)
                && !(r is Char),
    {
        match self.compile.find_local(name) {
            Some(i) => {
                assert(local_ok(self.compile.tree@[i as int].local));
                match &self.compile.tree[i].local {
                    SnippetLocal::Label(l) => Token::LabelSym(l.duplicate()),
                    SnippetLocal::Symbol(sy) => Token::Sym(sy.duplicate()),
                }
            },
            None => {
                match self.sleigh.find_snippet_symbol(name) {
                    Some(j) => {
                        assert(sym_ok(self.sleigh.symbols@[j as int]));
                        Token::Sym(self.sleigh.symbols[j].duplicate())
                    },
                    None => Token::Str(vstd::slice::slice_to_vec(name)),
                }
            },
        }
    }
}

fn named_space_type_exec(t: SpaceType) -> (r: bool)
    ensures
        r == named_space_type(t),
{
    match t {
        SpaceType::Constant | SpaceType::Processor | SpaceType::Spacebase | SpaceType::Internal => true,
        _ => false,
    }
}


/// The binding levels of the binary operators, loosest first.
pub const PREC_LOWEST: u8 = 0;
/// `||`
pub const PREC_BOOL_OR: u8 = 1;
/// `&&`, `^^`
pub const PREC_BOOL_AND: u8 = 2;
/// `|`
pub const PREC_OR: u8 = 3;
/// `^`
pub const PREC_XOR: u8 = 5;
/// `&`
pub const PREC_AND: u8 = 6;
/// `==`, `!=`, `f==`, `f!=`
pub const PREC_EQ: u8 = 7;
/// The comparisons, which do not chain.
pub const PREC_CMP: u8 = 8;
/// The shifts.
pub const PREC_SHIFT: u8 = 9;
/// `+`, `-`, `f+`, `f-`
pub const PREC_ADD: u8 = 10;
/// `*`, `/`, `%`, `s/`, `s%`, `f*`, `f/`
pub const PREC_MUL: u8 = 11;
/// The prefix operators.
pub const PREC_UNARY: u8 = 12;

/// Does the varnode name, if any space, one with a nonzero word size?
pub open spec fn vn_ok(v: VarnodeTpl) -> bool {
    v.space.type_ == ConstType::Spaceid ==> v.space.value_spaceid is Some && v.space.value_spaceid->0.word_size > 0
}

/// The recursive-descent parser of snippets: the tokens, the position of
/// the next one, the current token, and whether a grammar error occurred.
pub struct Parser {
    /// The lexemes of the snippet.
    pub toks: Vec<Lexeme>,
    /// The position of the next lexeme.
    pub pos: usize,
    /// The current token.
    pub cur: Token,
    /// Has a grammar error occurred?
    pub failed: bool,
}

impl Parser {
    /// Is the parser consistent: position within the lexemes, no `Eof`
    /// lexeme among them, the current token well formed and `Eof` only at
    /// the end?
    pub open spec fn wf(&self) -> bool {
        &&& self.pos <= self.toks@.len()
        &&& forall|i: int| 0 <= i < self.toks@.len() ==> !(#[trigger] self.toks@[i] is Eof)
        &&& forall|i: int| 0 <= i < self.toks@.len() ==> (#[trigger] self.toks@[i] matches Lexeme::Keyword(k) ==> k < NUM_IDENTS)
        &&& token_ok(self.cur)
        &&& (self.cur is Eof ==> self.pos == self.toks@.len())
    }

    /// The parser's progress measure: it shrinks with every token consumed.
    pub open spec fn measure(&self) -> nat {
        (2 * (self.toks@.len() - self.pos) + (if self.cur is Eof { 0int } else { 1int })) as nat
    }
}

/// Does `new` follow `old` in a parse: both consistent, the same lexemes,
/// no less progress, the same language and result, no fewer errors?
pub open spec fn stepped<'a>(op: &Parser, np: &Parser, os: &PcodeSnippet<'a>, ns: &PcodeSnippet<'a>) -> bool {
    &&& np.wf()
    &&& np.toks == op.toks
    &&& np.measure() <= op.measure()
    &&& ns.wf()
    &&& ns.sleigh == os.sleigh
    &&& ns.result == os.result
    &&& ns.compile.errorcount >= os.compile.errorcount
}

/// The binary operator of token `t`, if it is one: its binding level, its
/// op code, and whether the operands are swapped (`>`, `>=` and the like
/// are built as `<`, `<=` with swapped operands).
pub open spec fn binop_of(t: Token) -> Option<(u8, OpCode, bool)> {
    match t {
        Token::Key(k) => {
            if k == 8 { Some((PREC_BOOL_OR, OpCode::CPUI_BOOL_OR, false)) }
            else if k == 1 { Some((PREC_BOOL_AND, OpCode::CPUI_BOOL_AND, false)) }
            else if k == 7 { Some((PREC_BOOL_AND, OpCode::CPUI_BOOL_XOR, false)) }
            else if k == 4 { Some((PREC_EQ, OpCode::CPUI_INT_EQUAL, false)) }
            else if k == 0 { Some((PREC_EQ, OpCode::CPUI_INT_NOTEQUAL, false)) }
            else if k == 21 { Some((PREC_EQ, OpCode::CPUI_FLOAT_EQUAL, false)) }
            else if k == 14 { Some((PREC_EQ, OpCode::CPUI_FLOAT_NOTEQUAL, false)) }
            else if k == 5 { Some((PREC_CMP, OpCode::CPUI_INT_LESSEQUAL, true)) }
            else if k == 3 { Some((PREC_CMP, OpCode::CPUI_INT_LESSEQUAL, false)) }
            else if k == 35 { Some((PREC_CMP, OpCode::CPUI_INT_SLESS, false)) }
            else if k == 38 { Some((PREC_CMP, OpCode::CPUI_INT_SLESSEQUAL, true)) }
            else if k == 36 { Some((PREC_CMP, OpCode::CPUI_INT_SLESSEQUAL, false)) }
            else if k == 37 { Some((PREC_CMP, OpCode::CPUI_INT_SLESS, true)) }
            else if k == 19 { Some((PREC_CMP, OpCode::CPUI_FLOAT_LESS, false)) }
            else if k == 22 { Some((PREC_CMP, OpCode::CPUI_FLOAT_LESS, true)) }
            else if k == 20 { Some((PREC_CMP, OpCode::CPUI_FLOAT_LESSEQUAL, false)) }
            else if k == 23 { Some((PREC_CMP, OpCode::CPUI_FLOAT_LESSEQUAL, true)) }
            else if k == 2 { Some((PREC_SHIFT, OpCode::CPUI_INT_LEFT, false)) }
            else if k == 6 { Some((PREC_SHIFT, OpCode::CPUI_INT_RIGHT, false)) }
            else if k == 39 { Some((PREC_SHIFT, OpCode::CPUI_INT_SRIGHT, false)) }
            else if k == 16 { Some((PREC_ADD, OpCode::CPUI_FLOAT_ADD, false)) }
            else if k == 17 { Some((PREC_ADD, OpCode::CPUI_FLOAT_SUB, false)) }
            else if k == 34 { Some((PREC_MUL, OpCode::CPUI_INT_SDIV, false)) }
            else if k == 33 { Some((PREC_MUL, OpCode::CPUI_INT_SREM, false)) }
            else if k == 15 { Some((PREC_MUL, OpCode::CPUI_FLOAT_MULT, false)) }
            else if k == 18 { Some((PREC_MUL, OpCode::CPUI_FLOAT_DIV, false)) }
            else { None }
        },
        Token::Char(c) => {
            if c == 124 { Some((PREC_OR, OpCode::CPUI_INT_OR, false)) }
            else if c == 94 { Some((PREC_XOR, OpCode::CPUI_INT_XOR, false)) }
            else if c == 38 { Some((PREC_AND, OpCode::CPUI_INT_AND, false)) }
            else if c == 60 { Some((PREC_CMP, OpCode::CPUI_INT_LESS, false)) }
            else if c == 62 { Some((PREC_CMP, OpCode::CPUI_INT_LESS, true)) }
            else if c == 43 { Some((PREC_ADD, OpCode::CPUI_INT_ADD, false)) }
            else if c == 45 { Some((PREC_ADD, OpCode::CPUI_INT_SUB, false)) }
            else if c == 42 { Some((PREC_MUL, OpCode::CPUI_INT_MULT, false)) }
            else if c == 47 { Some((PREC_MUL, OpCode::CPUI_INT_DIV, false)) }
            else if c == 37 { Some((PREC_MUL, OpCode::CPUI_INT_REM, false)) }
            else { None }
        },
        _ => None,
    }
}

/// The text of a token that may be a binary operator: a keyword's text or a
/// punctuation character.
pub open spec fn op_text(t: Token) -> Seq<u8> {
    match t {
        Token::Key(k) => if k < NUM_IDENTS {
            ident_spec(k as int)
        } else {
            Seq::empty()
        },
        Token::Char(c) => seq![c],
        _ => Seq::empty(),
    }
}

/// A comparison operator's text without its signed (`s`) or float (`f`)
/// prefix.
pub open spec fn comparison_core(s: Seq<u8>) -> Seq<u8> {
    if s.len() > 0 && (s[0] == 115 || s[0] == 102) {
        s.drop_first()
    } else {
        s
    }
}

/// Is `s` a greater-than comparison: `>` or `>=`, possibly signed or
/// float?
pub open spec fn greater_text(s: Seq<u8>) -> bool {
    comparison_core(s) == seq![62u8] || comparison_core(s) == seq![62u8, 61u8]
}

/// The text with every `>` turned into `<`.
pub open spec fn mirror_text(s: Seq<u8>) -> Seq<u8> {
    s.map_values(|b: u8| if b == 62 { 60u8 } else { b })
}

/// Which keywords are greater-than comparisons, and which keyword carries
/// each less-than text.
proof fn lemma_keyword_texts(k: int)
    requires
        0 <= k < NUM_IDENTS,
    ensures
        greater_text(ident_spec(k)) <==> (k == 5 || k == 22 || k == 23 || k == 37 || k == 38),
        ident_spec(k) == "<=".spec_bytes() ==> k == 3,
        ident_spec(k) == "s<".spec_bytes() ==> k == 35,
        ident_spec(k) == "s<=".spec_bytes() ==> k == 36,
        ident_spec(k) == "f<".spec_bytes() ==> k == 19,
        ident_spec(k) == "f<=".spec_bytes() ==> k == 20,
        ident_spec(k) != seq![60u8],
{
    broadcast use vstd::string::is_ascii_spec_bytes;
    reveal_strlit("<=");
    assert(vstd::string::is_ascii("<="));
    assert("<=".spec_bytes() =~= seq![60u8, 61u8]);
    reveal_strlit("s<");
    assert(vstd::string::is_ascii("s<"));
    assert("s<".spec_bytes() =~= seq![115u8, 60u8]);
    reveal_strlit("s<=");
    assert(vstd::string::is_ascii("s<="));
    assert("s<=".spec_bytes() =~= seq![115u8, 60u8, 61u8]);
    reveal_strlit("f<");
    assert(vstd::string::is_ascii("f<"));
    assert("f<".spec_bytes() =~= seq![102u8, 60u8]);
    reveal_strlit("f<=");
    assert(vstd::string::is_ascii("f<="));
    assert("f<=".spec_bytes() =~= seq![102u8, 60u8, 61u8]);
    assert("<=".spec_bytes() =~= seq![60u8, 61u8]);
    assert("s<".spec_bytes() =~= seq![115u8, 60u8]);
    assert("s<=".spec_bytes() =~= seq![115u8, 60u8, 61u8]);
    assert("f<".spec_bytes() =~= seq![102u8, 60u8]);
    assert("f<=".spec_bytes() =~= seq![102u8, 60u8, 61u8]);
    if k == 0 {
        reveal_strlit("!=");
        assert(vstd::string::is_ascii("!="));
        assert("!=".spec_bytes() =~= seq![33u8, 61u8]);
        assert(ident_spec(k) =~= seq![33u8, 61u8]);
        assert(comparison_core(ident_spec(k)) =~= seq![33u8, 61u8]);
        assert(!greater_text(ident_spec(k))) by {
            if comparison_core(ident_spec(k)).len() == 1 { assert(comparison_core(ident_spec(k))[0] != 62u8); }
            if comparison_core(ident_spec(k)).len() == 2 { assert(comparison_core(ident_spec(k))[0] != 62u8 || comparison_core(ident_spec(k))[1] != 61u8); }
        }
    } else if k == 1 {
        reveal_strlit("&&");
        assert(vstd::string::is_ascii("&&"));
        assert("&&".spec_bytes() =~= seq![38u8, 38u8]);
        assert(ident_spec(k) =~= seq![38u8, 38u8]);
        assert(comparison_core(ident_spec(k)) =~= seq![38u8, 38u8]);
        assert(!greater_text(ident_spec(k))) by {
            if comparison_core(ident_spec(k)).len() == 1 { assert(comparison_core(ident_spec(k))[0] != 62u8); }
            if comparison_core(ident_spec(k)).len() == 2 { assert(comparison_core(ident_spec(k))[0] != 62u8 || comparison_core(ident_spec(k))[1] != 61u8); }
        }
    } else if k == 2 {
        reveal_strlit("<<");
        assert(vstd::string::is_ascii("<<"));
        assert("<<".spec_bytes() =~= seq![60u8, 60u8]);
        assert(ident_spec(k) =~= seq![60u8, 60u8]);
        assert(comparison_core(ident_spec(k)) =~= seq![60u8, 60u8]);
        assert(!greater_text(ident_spec(k))) by {
            if comparison_core(ident_spec(k)).len() == 1 { assert(comparison_core(ident_spec(k))[0] != 62u8); }
            if comparison_core(ident_spec(k)).len() == 2 { assert(comparison_core(ident_spec(k))[0] != 62u8 || comparison_core(ident_spec(k))[1] != 61u8); }
        }
    } else if k == 3 {
        reveal_strlit("<=");
        assert(vstd::string::is_ascii("<="));
        assert("<=".spec_bytes() =~= seq![60u8, 61u8]);
        assert(ident_spec(k) =~= seq![60u8, 61u8]);
        assert(comparison_core(ident_spec(k)) =~= seq![60u8, 61u8]);
        assert(!greater_text(ident_spec(k))) by {
            if comparison_core(ident_spec(k)).len() == 1 { assert(comparison_core(ident_spec(k))[0] != 62u8); }
            if comparison_core(ident_spec(k)).len() == 2 { assert(comparison_core(ident_spec(k))[0] != 62u8 || comparison_core(ident_spec(k))[1] != 61u8); }
        }
    } else if k == 4 {
        reveal_strlit("==");
        assert(vstd::string::is_ascii("=="));
        assert("==".spec_bytes() =~= seq![61u8, 61u8]);
        assert(ident_spec(k) =~= seq![61u8, 61u8]);
        assert(comparison_core(ident_spec(k)) =~= seq![61u8, 61u8]);
        assert(!greater_text(ident_spec(k))) by {
            if comparison_core(ident_spec(k)).len() == 1 { assert(comparison_core(ident_spec(k))[0] != 62u8); }
            if comparison_core(ident_spec(k)).len() == 2 { assert(comparison_core(ident_spec(k))[0] != 62u8 || comparison_core(ident_spec(k))[1] != 61u8); }
        }
    } else if k == 5 {
        reveal_strlit(">=");
        assert(vstd::string::is_ascii(">="));
        assert(">=".spec_bytes() =~= seq![62u8, 61u8]);
        assert(ident_spec(k) =~= seq![62u8, 61u8]);
        assert(comparison_core(ident_spec(k)) =~= seq![62u8, 61u8]);
    } else if k == 6 {
        reveal_strlit(">>");
        assert(vstd::string::is_ascii(">>"));
        assert(">>".spec_bytes() =~= seq![62u8, 62u8]);
        assert(ident_spec(k) =~= seq![62u8, 62u8]);
        assert(comparison_core(ident_spec(k)) =~= seq![62u8, 62u8]);
        assert(!greater_text(ident_spec(k))) by {
            if comparison_core(ident_spec(k)).len() == 1 { assert(comparison_core(ident_spec(k))[0] != 62u8); }
            if comparison_core(ident_spec(k)).len() == 2 { assert(comparison_core(ident_spec(k))[0] != 62u8 || comparison_core(ident_spec(k))[1] != 61u8); }
        }
    } else if k == 7 {
        reveal_strlit("^^");
        assert(vstd::string::is_ascii("^^"));
        assert("^^".spec_bytes() =~= seq![94u8, 94u8]);
        assert(ident_spec(k) =~= seq![94u8, 94u8]);
        assert(comparison_core(ident_spec(k)) =~= seq![94u8, 94u8]);
        assert(!greater_text(ident_spec(k))) by {
            if comparison_core(ident_spec(k)).len() == 1 { assert(comparison_core(ident_spec(k))[0] != 62u8); }
            if comparison_core(ident_spec(k)).len() == 2 { assert(comparison_core(ident_spec(k))[0] != 62u8 || comparison_core(ident_spec(k))[1] != 61u8); }
        }
    } else if k == 8 {
        reveal_strlit("||");
        assert(vstd::string::is_ascii("||"));
        assert("||".spec_bytes() =~= seq![124u8, 124u8]);
        assert(ident_spec(k) =~= seq![124u8, 124u8]);
        assert(comparison_core(ident_spec(k)) =~= seq![124u8, 124u8]);
        assert(!greater_text(ident_spec(k))) by {
            if comparison_core(ident_spec(k)).len() == 1 { assert(comparison_core(ident_spec(k))[0] != 62u8); }
            if comparison_core(ident_spec(k)).len() == 2 { assert(comparison_core(ident_spec(k))[0] != 62u8 || comparison_core(ident_spec(k))[1] != 61u8); }
        }
    } else if k == 9 {
        reveal_strlit("abs");
        assert(vstd::string::is_ascii("abs"));
        assert("abs".spec_bytes() =~= seq![97u8, 98u8, 115u8]);
        assert(ident_spec(k) =~= seq![97u8, 98u8, 115u8]);
        assert(comparison_core(ident_spec(k)) =~= seq![97u8, 98u8, 115u8]);
        assert(!greater_text(ident_spec(k))) by {
            if comparison_core(ident_spec(k)).len() == 1 { assert(comparison_core(ident_spec(k))[0] != 62u8); }
            if comparison_core(ident_spec(k)).len() == 2 { assert(comparison_core(ident_spec(k))[0] != 62u8 || comparison_core(ident_spec(k))[1] != 61u8); }
        }
    } else if k == 10 {
        reveal_strlit("borrow");
        assert(vstd::string::is_ascii("borrow"));
        assert("borrow".spec_bytes() =~= seq![98u8, 111u8, 114u8, 114u8, 111u8, 119u8]);
        assert(ident_spec(k) =~= seq![98u8, 111u8, 114u8, 114u8, 111u8, 119u8]);
        assert(comparison_core(ident_spec(k)) =~= seq![98u8, 111u8, 114u8, 114u8, 111u8, 119u8]);
        assert(!greater_text(ident_spec(k))) by {
            if comparison_core(ident_spec(k)).len() == 1 { assert(comparison_core(ident_spec(k))[0] != 62u8); }
            if comparison_core(ident_spec(k)).len() == 2 { assert(comparison_core(ident_spec(k))[0] != 62u8 || comparison_core(ident_spec(k))[1] != 61u8); }
        }
    } else if k == 11 {
        reveal_strlit("call");
        assert(vstd::string::is_ascii("call"));
        assert("call".spec_bytes() =~= seq![99u8, 97u8, 108u8, 108u8]);
        assert(ident_spec(k) =~= seq![99u8, 97u8, 108u8, 108u8]);
        assert(comparison_core(ident_spec(k)) =~= seq![99u8, 97u8, 108u8, 108u8]);
        assert(!greater_text(ident_spec(k))) by {
            if comparison_core(ident_spec(k)).len() == 1 { assert(comparison_core(ident_spec(k))[0] != 62u8); }
            if comparison_core(ident_spec(k)).len() == 2 { assert(comparison_core(ident_spec(k))[0] != 62u8 || comparison_core(ident_spec(k))[1] != 61u8); }
        }
    } else if k == 12 {
        reveal_strlit("carry");
        assert(vstd::string::is_ascii("carry"));
        assert("carry".spec_bytes() =~= seq![99u8, 97u8, 114u8, 114u8, 121u8]);
        assert(ident_spec(k) =~= seq![99u8, 97u8, 114u8, 114u8, 121u8]);
        assert(comparison_core(ident_spec(k)) =~= seq![99u8, 97u8, 114u8, 114u8, 121u8]);
        assert(!greater_text(ident_spec(k))) by {
            if comparison_core(ident_spec(k)).len() == 1 { assert(comparison_core(ident_spec(k))[0] != 62u8); }
            if comparison_core(ident_spec(k)).len() == 2 { assert(comparison_core(ident_spec(k))[0] != 62u8 || comparison_core(ident_spec(k))[1] != 61u8); }
        }
    } else if k == 13 {
        reveal_strlit("ceil");
        assert(vstd::string::is_ascii("ceil"));
        assert("ceil".spec_bytes() =~= seq![99u8, 101u8, 105u8, 108u8]);
        assert(ident_spec(k) =~= seq![99u8, 101u8, 105u8, 108u8]);
        assert(comparison_core(ident_spec(k)) =~= seq![99u8, 101u8, 105u8, 108u8]);
        assert(!greater_text(ident_spec(k))) by {
            if comparison_core(ident_spec(k)).len() == 1 { assert(comparison_core(ident_spec(k))[0] != 62u8); }
            if comparison_core(ident_spec(k)).len() == 2 { assert(comparison_core(ident_spec(k))[0] != 62u8 || comparison_core(ident_spec(k))[1] != 61u8); }
        }
    } else if k == 14 {
        reveal_strlit("f!=");
        assert(vstd::string::is_ascii("f!="));
        assert("f!=".spec_bytes() =~= seq![102u8, 33u8, 61u8]);
        assert(ident_spec(k) =~= seq![102u8, 33u8, 61u8]);
        assert(comparison_core(ident_spec(k)) =~= seq![33u8, 61u8]);
        assert(!greater_text(ident_spec(k))) by {
            if comparison_core(ident_spec(k)).len() == 1 { assert(comparison_core(ident_spec(k))[0] != 62u8); }
            if comparison_core(ident_spec(k)).len() == 2 { assert(comparison_core(ident_spec(k))[0] != 62u8 || comparison_core(ident_spec(k))[1] != 61u8); }
        }
    } else if k == 15 {
        reveal_strlit("f*");
        assert(vstd::string::is_ascii("f*"));
        assert("f*".spec_bytes() =~= seq![102u8, 42u8]);
        assert(ident_spec(k) =~= seq![102u8, 42u8]);
        assert(comparison_core(ident_spec(k)) =~= seq![42u8]);
        assert(!greater_text(ident_spec(k))) by {
            if comparison_core(ident_spec(k)).len() == 1 { assert(comparison_core(ident_spec(k))[0] != 62u8); }
            if comparison_core(ident_spec(k)).len() == 2 { assert(comparison_core(ident_spec(k))[0] != 62u8 || comparison_core(ident_spec(k))[1] != 61u8); }
        }
    } else if k == 16 {
        reveal_strlit("f+");
        assert(vstd::string::is_ascii("f+"));
        assert("f+".spec_bytes() =~= seq![102u8, 43u8]);
        assert(ident_spec(k) =~= seq![102u8, 43u8]);
        assert(comparison_core(ident_spec(k)) =~= seq![43u8]);
        assert(!greater_text(ident_spec(k))) by {
            if comparison_core(ident_spec(k)).len() == 1 { assert(comparison_core(ident_spec(k))[0] != 62u8); }
            if comparison_core(ident_spec(k)).len() == 2 { assert(comparison_core(ident_spec(k))[0] != 62u8 || comparison_core(ident_spec(k))[1] != 61u8); }
        }
    } else if k == 17 {
        reveal_strlit("f-");
        assert(vstd::string::is_ascii("f-"));
        assert("f-".spec_bytes() =~= seq![102u8, 45u8]);
        assert(ident_spec(k) =~= seq![102u8, 45u8]);
        assert(comparison_core(ident_spec(k)) =~= seq![45u8]);
        assert(!greater_text(ident_spec(k))) by {
            if comparison_core(ident_spec(k)).len() == 1 { assert(comparison_core(ident_spec(k))[0] != 62u8); }
            if comparison_core(ident_spec(k)).len() == 2 { assert(comparison_core(ident_spec(k))[0] != 62u8 || comparison_core(ident_spec(k))[1] != 61u8); }
        }
    } else if k == 18 {
        reveal_strlit("f/");
        assert(vstd::string::is_ascii("f/"));
        assert("f/".spec_bytes() =~= seq![102u8, 47u8]);
        assert(ident_spec(k) =~= seq![102u8, 47u8]);
        assert(comparison_core(ident_spec(k)) =~= seq![47u8]);
        assert(!greater_text(ident_spec(k))) by {
            if comparison_core(ident_spec(k)).len() == 1 { assert(comparison_core(ident_spec(k))[0] != 62u8); }
            if comparison_core(ident_spec(k)).len() == 2 { assert(comparison_core(ident_spec(k))[0] != 62u8 || comparison_core(ident_spec(k))[1] != 61u8); }
        }
    } else if k == 19 {
        reveal_strlit("f<");
        assert(vstd::string::is_ascii("f<"));
        assert("f<".spec_bytes() =~= seq![102u8, 60u8]);
        assert(ident_spec(k) =~= seq![102u8, 60u8]);
        assert(comparison_core(ident_spec(k)) =~= seq![60u8]);
        assert(!greater_text(ident_spec(k))) by {
            if comparison_core(ident_spec(k)).len() == 1 { assert(comparison_core(ident_spec(k))[0] != 62u8); }
            if comparison_core(ident_spec(k)).len() == 2 { assert(comparison_core(ident_spec(k))[0] != 62u8 || comparison_core(ident_spec(k))[1] != 61u8); }
        }
    } else if k == 20 {
        reveal_strlit("f<=");
        assert(vstd::string::is_ascii("f<="));
        assert("f<=".spec_bytes() =~= seq![102u8, 60u8, 61u8]);
        assert(ident_spec(k) =~= seq![102u8, 60u8, 61u8]);
        assert(comparison_core(ident_spec(k)) =~= seq![60u8, 61u8]);
        assert(!greater_text(ident_spec(k))) by {
            if comparison_core(ident_spec(k)).len() == 1 { assert(comparison_core(ident_spec(k))[0] != 62u8); }
            if comparison_core(ident_spec(k)).len() == 2 { assert(comparison_core(ident_spec(k))[0] != 62u8 || comparison_core(ident_spec(k))[1] != 61u8); }
        }
    } else if k == 21 {
        reveal_strlit("f==");
        assert(vstd::string::is_ascii("f=="));
        assert("f==".spec_bytes() =~= seq![102u8, 61u8, 61u8]);
        assert(ident_spec(k) =~= seq![102u8, 61u8, 61u8]);
        assert(comparison_core(ident_spec(k)) =~= seq![61u8, 61u8]);
        assert(!greater_text(ident_spec(k))) by {
            if comparison_core(ident_spec(k)).len() == 1 { assert(comparison_core(ident_spec(k))[0] != 62u8); }
            if comparison_core(ident_spec(k)).len() == 2 { assert(comparison_core(ident_spec(k))[0] != 62u8 || comparison_core(ident_spec(k))[1] != 61u8); }
        }
    } else if k == 22 {
        reveal_strlit("f>");
        assert(vstd::string::is_ascii("f>"));
        assert("f>".spec_bytes() =~= seq![102u8, 62u8]);
        assert(ident_spec(k) =~= seq![102u8, 62u8]);
        assert(comparison_core(ident_spec(k)) =~= seq![62u8]);
    } else if k == 23 {
        reveal_strlit("f>=");
        assert(vstd::string::is_ascii("f>="));
        assert("f>=".spec_bytes() =~= seq![102u8, 62u8, 61u8]);
        assert(ident_spec(k) =~= seq![102u8, 62u8, 61u8]);
        assert(comparison_core(ident_spec(k)) =~= seq![62u8, 61u8]);
    } else if k == 24 {
        reveal_strlit("float2float");
        assert(vstd::string::is_ascii("float2float"));
        assert("float2float".spec_bytes() =~= seq![102u8, 108u8, 111u8, 97u8, 116u8, 50u8, 102u8, 108u8, 111u8, 97u8, 116u8]);
        assert(ident_spec(k) =~= seq![102u8, 108u8, 111u8, 97u8, 116u8, 50u8, 102u8, 108u8, 111u8, 97u8, 116u8]);
        assert(comparison_core(ident_spec(k)) =~= seq![108u8, 111u8, 97u8, 116u8, 50u8, 102u8, 108u8, 111u8, 97u8, 116u8]);
        assert(!greater_text(ident_spec(k))) by {
            if comparison_core(ident_spec(k)).len() == 1 { assert(comparison_core(ident_spec(k))[0] != 62u8); }
            if comparison_core(ident_spec(k)).len() == 2 { assert(comparison_core(ident_spec(k))[0] != 62u8 || comparison_core(ident_spec(k))[1] != 61u8); }
        }
    } else if k == 25 {
        reveal_strlit("floor");
        assert(vstd::string::is_ascii("floor"));
        assert("floor".spec_bytes() =~= seq![102u8, 108u8, 111u8, 111u8, 114u8]);
        assert(ident_spec(k) =~= seq![102u8, 108u8, 111u8, 111u8, 114u8]);
        assert(comparison_core(ident_spec(k)) =~= seq![108u8, 111u8, 111u8, 114u8]);
        assert(!greater_text(ident_spec(k))) by {
            if comparison_core(ident_spec(k)).len() == 1 { assert(comparison_core(ident_spec(k))[0] != 62u8); }
            if comparison_core(ident_spec(k)).len() == 2 { assert(comparison_core(ident_spec(k))[0] != 62u8 || comparison_core(ident_spec(k))[1] != 61u8); }
        }
    } else if k == 26 {
        reveal_strlit("goto");
        assert(vstd::string::is_ascii("goto"));
        assert("goto".spec_bytes() =~= seq![103u8, 111u8, 116u8, 111u8]);
        assert(ident_spec(k) =~= seq![103u8, 111u8, 116u8, 111u8]);
        assert(comparison_core(ident_spec(k)) =~= seq![103u8, 111u8, 116u8, 111u8]);
        assert(!greater_text(ident_spec(k))) by {
            if comparison_core(ident_spec(k)).len() == 1 { assert(comparison_core(ident_spec(k))[0] != 62u8); }
            if comparison_core(ident_spec(k)).len() == 2 { assert(comparison_core(ident_spec(k))[0] != 62u8 || comparison_core(ident_spec(k))[1] != 61u8); }
        }
    } else if k == 27 {
        reveal_strlit("if");
        assert(vstd::string::is_ascii("if"));
        assert("if".spec_bytes() =~= seq![105u8, 102u8]);
        assert(ident_spec(k) =~= seq![105u8, 102u8]);
        assert(comparison_core(ident_spec(k)) =~= seq![105u8, 102u8]);
        assert(!greater_text(ident_spec(k))) by {
            if comparison_core(ident_spec(k)).len() == 1 { assert(comparison_core(ident_spec(k))[0] != 62u8); }
            if comparison_core(ident_spec(k)).len() == 2 { assert(comparison_core(ident_spec(k))[0] != 62u8 || comparison_core(ident_spec(k))[1] != 61u8); }
        }
    } else if k == 28 {
        reveal_strlit("int2float");
        assert(vstd::string::is_ascii("int2float"));
        assert("int2float".spec_bytes() =~= seq![105u8, 110u8, 116u8, 50u8, 102u8, 108u8, 111u8, 97u8, 116u8]);
        assert(ident_spec(k) =~= seq![105u8, 110u8, 116u8, 50u8, 102u8, 108u8, 111u8, 97u8, 116u8]);
        assert(comparison_core(ident_spec(k)) =~= seq![105u8, 110u8, 116u8, 50u8, 102u8, 108u8, 111u8, 97u8, 116u8]);
        assert(!greater_text(ident_spec(k))) by {
            if comparison_core(ident_spec(k)).len() == 1 { assert(comparison_core(ident_spec(k))[0] != 62u8); }
            if comparison_core(ident_spec(k)).len() == 2 { assert(comparison_core(ident_spec(k))[0] != 62u8 || comparison_core(ident_spec(k))[1] != 61u8); }
        }
    } else if k == 29 {
        reveal_strlit("local");
        assert(vstd::string::is_ascii("local"));
        assert("local".spec_bytes() =~= seq![108u8, 111u8, 99u8, 97u8, 108u8]);
        assert(ident_spec(k) =~= seq![108u8, 111u8, 99u8, 97u8, 108u8]);
        assert(comparison_core(ident_spec(k)) =~= seq![108u8, 111u8, 99u8, 97u8, 108u8]);
        assert(!greater_text(ident_spec(k))) by {
            if comparison_core(ident_spec(k)).len() == 1 { assert(comparison_core(ident_spec(k))[0] != 62u8); }
            if comparison_core(ident_spec(k)).len() == 2 { assert(comparison_core(ident_spec(k))[0] != 62u8 || comparison_core(ident_spec(k))[1] != 61u8); }
        }
    } else if k == 30 {
        reveal_strlit("nan");
        assert(vstd::string::is_ascii("nan"));
        assert("nan".spec_bytes() =~= seq![110u8, 97u8, 110u8]);
        assert(ident_spec(k) =~= seq![110u8, 97u8, 110u8]);
        assert(comparison_core(ident_spec(k)) =~= seq![110u8, 97u8, 110u8]);
        assert(!greater_text(ident_spec(k))) by {
            if comparison_core(ident_spec(k)).len() == 1 { assert(comparison_core(ident_spec(k))[0] != 62u8); }
            if comparison_core(ident_spec(k)).len() == 2 { assert(comparison_core(ident_spec(k))[0] != 62u8 || comparison_core(ident_spec(k))[1] != 61u8); }
        }
    } else if k == 31 {
        reveal_strlit("return");
        assert(vstd::string::is_ascii("return"));
        assert("return".spec_bytes() =~= seq![114u8, 101u8, 116u8, 117u8, 114u8, 110u8]);
        assert(ident_spec(k) =~= seq![114u8, 101u8, 116u8, 117u8, 114u8, 110u8]);
        assert(comparison_core(ident_spec(k)) =~= seq![114u8, 101u8, 116u8, 117u8, 114u8, 110u8]);
        assert(!greater_text(ident_spec(k))) by {
            if comparison_core(ident_spec(k)).len() == 1 { assert(comparison_core(ident_spec(k))[0] != 62u8); }
            if comparison_core(ident_spec(k)).len() == 2 { assert(comparison_core(ident_spec(k))[0] != 62u8 || comparison_core(ident_spec(k))[1] != 61u8); }
        }
    } else if k == 32 {
        reveal_strlit("round");
        assert(vstd::string::is_ascii("round"));
        assert("round".spec_bytes() =~= seq![114u8, 111u8, 117u8, 110u8, 100u8]);
        assert(ident_spec(k) =~= seq![114u8, 111u8, 117u8, 110u8, 100u8]);
        assert(comparison_core(ident_spec(k)) =~= seq![114u8, 111u8, 117u8, 110u8, 100u8]);
        assert(!greater_text(ident_spec(k))) by {
            if comparison_core(ident_spec(k)).len() == 1 { assert(comparison_core(ident_spec(k))[0] != 62u8); }
            if comparison_core(ident_spec(k)).len() == 2 { assert(comparison_core(ident_spec(k))[0] != 62u8 || comparison_core(ident_spec(k))[1] != 61u8); }
        }
    } else if k == 33 {
        reveal_strlit("s%");
        assert(vstd::string::is_ascii("s%"));
        assert("s%".spec_bytes() =~= seq![115u8, 37u8]);
        assert(ident_spec(k) =~= seq![115u8, 37u8]);
        assert(comparison_core(ident_spec(k)) =~= seq![37u8]);
        assert(!greater_text(ident_spec(k))) by {
            if comparison_core(ident_spec(k)).len() == 1 { assert(comparison_core(ident_spec(k))[0] != 62u8); }
            if comparison_core(ident_spec(k)).len() == 2 { assert(comparison_core(ident_spec(k))[0] != 62u8 || comparison_core(ident_spec(k))[1] != 61u8); }
        }
    } else if k == 34 {
        reveal_strlit("s/");
        assert(vstd::string::is_ascii("s/"));
        assert("s/".spec_bytes() =~= seq![115u8, 47u8]);
        assert(ident_spec(k) =~= seq![115u8, 47u8]);
        assert(comparison_core(ident_spec(k)) =~= seq![47u8]);
        assert(!greater_text(ident_spec(k))) by {
            if comparison_core(ident_spec(k)).len() == 1 { assert(comparison_core(ident_spec(k))[0] != 62u8); }
            if comparison_core(ident_spec(k)).len() == 2 { assert(comparison_core(ident_spec(k))[0] != 62u8 || comparison_core(ident_spec(k))[1] != 61u8); }
        }
    } else if k == 35 {
        reveal_strlit("s<");
        assert(vstd::string::is_ascii("s<"));
        assert("s<".spec_bytes() =~= seq![115u8, 60u8]);
        assert(ident_spec(k) =~= seq![115u8, 60u8]);
        assert(comparison_core(ident_spec(k)) =~= seq![60u8]);
        assert(!greater_text(ident_spec(k))) by {
            if comparison_core(ident_spec(k)).len() == 1 { assert(comparison_core(ident_spec(k))[0] != 62u8); }
            if comparison_core(ident_spec(k)).len() == 2 { assert(comparison_core(ident_spec(k))[0] != 62u8 || comparison_core(ident_spec(k))[1] != 61u8); }
        }
    } else if k == 36 {
        reveal_strlit("s<=");
        assert(vstd::string::is_ascii("s<="));
        assert("s<=".spec_bytes() =~= seq![115u8, 60u8, 61u8]);
        assert(ident_spec(k) =~= seq![115u8, 60u8, 61u8]);
        assert(comparison_core(ident_spec(k)) =~= seq![60u8, 61u8]);
        assert(!greater_text(ident_spec(k))) by {
            if comparison_core(ident_spec(k)).len() == 1 { assert(comparison_core(ident_spec(k))[0] != 62u8); }
            if comparison_core(ident_spec(k)).len() == 2 { assert(comparison_core(ident_spec(k))[0] != 62u8 || comparison_core(ident_spec(k))[1] != 61u8); }
        }
    } else if k == 37 {
        reveal_strlit("s>");
        assert(vstd::string::is_ascii("s>"));
        assert("s>".spec_bytes() =~= seq![115u8, 62u8]);
        assert(ident_spec(k) =~= seq![115u8, 62u8]);
        assert(comparison_core(ident_spec(k)) =~= seq![62u8]);
    } else if k == 38 {
        reveal_strlit("s>=");
        assert(vstd::string::is_ascii("s>="));
        assert("s>=".spec_bytes() =~= seq![115u8, 62u8, 61u8]);
        assert(ident_spec(k) =~= seq![115u8, 62u8, 61u8]);
        assert(comparison_core(ident_spec(k)) =~= seq![62u8, 61u8]);
    } else if k == 39 {
        reveal_strlit("s>>");
        assert(vstd::string::is_ascii("s>>"));
        assert("s>>".spec_bytes() =~= seq![115u8, 62u8, 62u8]);
        assert(ident_spec(k) =~= seq![115u8, 62u8, 62u8]);
        assert(comparison_core(ident_spec(k)) =~= seq![62u8, 62u8]);
        assert(!greater_text(ident_spec(k))) by {
            if comparison_core(ident_spec(k)).len() == 1 { assert(comparison_core(ident_spec(k))[0] != 62u8); }
            if comparison_core(ident_spec(k)).len() == 2 { assert(comparison_core(ident_spec(k))[0] != 62u8 || comparison_core(ident_spec(k))[1] != 61u8); }
        }
    } else if k == 40 {
        reveal_strlit("sborrow");
        assert(vstd::string::is_ascii("sborrow"));
        assert("sborrow".spec_bytes() =~= seq![115u8, 98u8, 111u8, 114u8, 114u8, 111u8, 119u8]);
        assert(ident_spec(k) =~= seq![115u8, 98u8, 111u8, 114u8, 114u8, 111u8, 119u8]);
        assert(comparison_core(ident_spec(k)) =~= seq![98u8, 111u8, 114u8, 114u8, 111u8, 119u8]);
        assert(!greater_text(ident_spec(k))) by {
            if comparison_core(ident_spec(k)).len() == 1 { assert(comparison_core(ident_spec(k))[0] != 62u8); }
            if comparison_core(ident_spec(k)).len() == 2 { assert(comparison_core(ident_spec(k))[0] != 62u8 || comparison_core(ident_spec(k))[1] != 61u8); }
        }
    } else if k == 41 {
        reveal_strlit("scarry");
        assert(vstd::string::is_ascii("scarry"));
        assert("scarry".spec_bytes() =~= seq![115u8, 99u8, 97u8, 114u8, 114u8, 121u8]);
        assert(ident_spec(k) =~= seq![115u8, 99u8, 97u8, 114u8, 114u8, 121u8]);
        assert(comparison_core(ident_spec(k)) =~= seq![99u8, 97u8, 114u8, 114u8, 121u8]);
        assert(!greater_text(ident_spec(k))) by {
            if comparison_core(ident_spec(k)).len() == 1 { assert(comparison_core(ident_spec(k))[0] != 62u8); }
            if comparison_core(ident_spec(k)).len() == 2 { assert(comparison_core(ident_spec(k))[0] != 62u8 || comparison_core(ident_spec(k))[1] != 61u8); }
        }
    } else if k == 42 {
        reveal_strlit("sext");
        assert(vstd::string::is_ascii("sext"));
        assert("sext".spec_bytes() =~= seq![115u8, 101u8, 120u8, 116u8]);
        assert(ident_spec(k) =~= seq![115u8, 101u8, 120u8, 116u8]);
        assert(comparison_core(ident_spec(k)) =~= seq![101u8, 120u8, 116u8]);
        assert(!greater_text(ident_spec(k))) by {
            if comparison_core(ident_spec(k)).len() == 1 { assert(comparison_core(ident_spec(k))[0] != 62u8); }
            if comparison_core(ident_spec(k)).len() == 2 { assert(comparison_core(ident_spec(k))[0] != 62u8 || comparison_core(ident_spec(k))[1] != 61u8); }
        }
    } else if k == 43 {
        reveal_strlit("sqrt");
        assert(vstd::string::is_ascii("sqrt"));
        assert("sqrt".spec_bytes() =~= seq![115u8, 113u8, 114u8, 116u8]);
        assert(ident_spec(k) =~= seq![115u8, 113u8, 114u8, 116u8]);
        assert(comparison_core(ident_spec(k)) =~= seq![113u8, 114u8, 116u8]);
        assert(!greater_text(ident_spec(k))) by {
            if comparison_core(ident_spec(k)).len() == 1 { assert(comparison_core(ident_spec(k))[0] != 62u8); }
            if comparison_core(ident_spec(k)).len() == 2 { assert(comparison_core(ident_spec(k))[0] != 62u8 || comparison_core(ident_spec(k))[1] != 61u8); }
        }
    } else if k == 44 {
        reveal_strlit("trunc");
        assert(vstd::string::is_ascii("trunc"));
        assert("trunc".spec_bytes() =~= seq![116u8, 114u8, 117u8, 110u8, 99u8]);
        assert(ident_spec(k) =~= seq![116u8, 114u8, 117u8, 110u8, 99u8]);
        assert(comparison_core(ident_spec(k)) =~= seq![116u8, 114u8, 117u8, 110u8, 99u8]);
        assert(!greater_text(ident_spec(k))) by {
            if comparison_core(ident_spec(k)).len() == 1 { assert(comparison_core(ident_spec(k))[0] != 62u8); }
            if comparison_core(ident_spec(k)).len() == 2 { assert(comparison_core(ident_spec(k))[0] != 62u8 || comparison_core(ident_spec(k))[1] != 61u8); }
        }
    } else if k == 45 {
        reveal_strlit("zext");
        assert(vstd::string::is_ascii("zext"));
        assert("zext".spec_bytes() =~= seq![122u8, 101u8, 120u8, 116u8]);
        assert(ident_spec(k) =~= seq![122u8, 101u8, 120u8, 116u8]);
        assert(comparison_core(ident_spec(k)) =~= seq![122u8, 101u8, 120u8, 116u8]);
        assert(!greater_text(ident_spec(k))) by {
            if comparison_core(ident_spec(k)).len() == 1 { assert(comparison_core(ident_spec(k))[0] != 62u8); }
            if comparison_core(ident_spec(k)).len() == 2 { assert(comparison_core(ident_spec(k))[0] != 62u8 || comparison_core(ident_spec(k))[1] != 61u8); }
        }
    }
    if greater_text(ident_spec(k)) {
        assert(comparison_core(ident_spec(k)).len() >= 1);
    }
}

/// A greater-than comparison is the matching less-than comparison with its
/// operands exchanged: of the binary operator tokens, exactly the
/// greater-than forms (`>`, `>=`, `s>`, `s>=`, `f>`, `f>=`) have their
/// operands swapped, and each gives the op and binding level of its
/// less-than mirror (`<`, `<=`, `s<`, `s<=`, `f<`, `f<=`), which does not
/// swap.
pub proof fn lemma_greater_is_swapped_less()
    ensures
        forall|t: Token| #[trigger] binop_of(t) is Some ==> ((binop_of(t)->0).2 <==> greater_text(op_text(t))),
        forall|t: Token, u: Token| greater_text(op_text(t)) && #[trigger] op_text(u) == mirror_text(#[trigger] op_text(t))
            ==> (binop_of(t) matches Some(g) && g.2 && binop_of(u) == Some::<(u8, OpCode, bool)>((g.0, g.1, false))),
{
    assert forall|t: Token| #[trigger] binop_of(t) is Some implies ((binop_of(t)->0).2 <==> greater_text(op_text(t))) by {
        match t {
            Token::Key(k) => {
                lemma_keyword_texts(k as int);
            },
            Token::Char(c) => {
                assert(comparison_core(seq![c]) =~= seq![c]) by {
                    if c == 115 || c == 102 {
                    }
                }
            },
            _ => {},
        }
    }
    assert forall|t: Token, u: Token| greater_text(op_text(t)) && #[trigger] op_text(u) == mirror_text(#[trigger] op_text(t))
        implies (binop_of(t) matches Some(g) && g.2 && binop_of(u) == Some::<(u8, OpCode, bool)>((g.0, g.1, false))) by {
        broadcast use vstd::string::is_ascii_spec_bytes;
        let mt = mirror_text(op_text(t));
        match t {
            Token::Key(k) => {
                lemma_keyword_texts(k as int);
                reveal_strlit(">=");
                assert(vstd::string::is_ascii(">="));
                assert(">=".spec_bytes() =~= seq![62u8, 61u8]);
                reveal_strlit("f>");
                assert(vstd::string::is_ascii("f>"));
                assert("f>".spec_bytes() =~= seq![102u8, 62u8]);
                reveal_strlit("f>=");
                assert(vstd::string::is_ascii("f>="));
                assert("f>=".spec_bytes() =~= seq![102u8, 62u8, 61u8]);
                reveal_strlit("s>");
                assert(vstd::string::is_ascii("s>"));
                assert("s>".spec_bytes() =~= seq![115u8, 62u8]);
                reveal_strlit("s>=");
                assert(vstd::string::is_ascii("s>="));
                assert("s>=".spec_bytes() =~= seq![115u8, 62u8, 61u8]);
                reveal_strlit("<=");
                assert(vstd::string::is_ascii("<="));
                assert("<=".spec_bytes() =~= seq![60u8, 61u8]);
                reveal_strlit("s<");
                assert(vstd::string::is_ascii("s<"));
                assert("s<".spec_bytes() =~= seq![115u8, 60u8]);
                reveal_strlit("s<=");
                assert(vstd::string::is_ascii("s<="));
                assert("s<=".spec_bytes() =~= seq![115u8, 60u8, 61u8]);
                reveal_strlit("f<");
                assert(vstd::string::is_ascii("f<"));
                assert("f<".spec_bytes() =~= seq![102u8, 60u8]);
                reveal_strlit("f<=");
                assert(vstd::string::is_ascii("f<="));
                assert("f<=".spec_bytes() =~= seq![102u8, 60u8, 61u8]);
                if k == 5 {
                    assert(mt =~= "<=".spec_bytes());
                } else if k == 22 {
                    assert(mt =~= "f<".spec_bytes());
                } else if k == 23 {
                    assert(mt =~= "f<=".spec_bytes());
                } else if k == 37 {
                    assert(mt =~= "s<".spec_bytes());
                } else {
                    assert(mt =~= "s<=".spec_bytes());
                }
                match u {
                    Token::Key(k2) => {
                        if k2 < NUM_IDENTS {
                            lemma_keyword_texts(k2 as int);
                        }
                    },
                    Token::Char(c2) => {
                        assert(op_text(u).len() == 1);
                    },
                    _ => {},
                }
            },
            Token::Char(c) => {
                assert(comparison_core(seq![c]) =~= seq![c]) by {
                    if c == 115 || c == 102 {
                        assert(seq![c].drop_first().len() == 0);
                    }
                }
                assert(c == 62);
                assert(mt =~= seq![60u8]);
                match u {
                    Token::Key(k2) => {
                        if k2 < NUM_IDENTS {
                            lemma_keyword_texts(k2 as int);
                        }
                    },
                    Token::Char(c2) => {
                        assert(op_text(u)[0] == 60);
                    },
                    _ => {},
                }
            },
            _ => {},
        }
    }
}

/// The unary p-code function named by keyword `k`, if any.
pub open spec fn unary_func_of(k: usize) -> Option<OpCode> {
    if k == 9 { Some(OpCode::CPUI_FLOAT_ABS) }
    else if k == 43 { Some(OpCode::CPUI_FLOAT_SQRT) }
    else if k == 42 { Some(OpCode::CPUI_INT_SEXT) }
    else if k == 45 { Some(OpCode::CPUI_INT_ZEXT) }
    else if k == 24 { Some(OpCode::CPUI_FLOAT_FLOAT2FLOAT) }
    else if k == 28 { Some(OpCode::CPUI_FLOAT_INT2FLOAT) }
    else if k == 30 { Some(OpCode::CPUI_FLOAT_NAN) }
    else if k == 44 { Some(OpCode::CPUI_FLOAT_TRUNC) }
    else if k == 13 { Some(OpCode::CPUI_FLOAT_CEIL) }
    else if k == 25 { Some(OpCode::CPUI_FLOAT_FLOOR) }
    else if k == 32 { Some(OpCode::CPUI_FLOAT_ROUND) }
    else { None }
}

/// The two-argument p-code function named by keyword `k`, if any.
pub open spec fn binary_func_of(k: usize) -> Option<OpCode> {
    if k == 12 { Some(OpCode::CPUI_INT_CARRY) }
    else if k == 41 { Some(OpCode::CPUI_INT_SCARRY) }
    else if k == 40 { Some(OpCode::CPUI_INT_SBORROW) }
    else { None }
}

fn unary_func_exec(k: usize) -> (r: Option<OpCode>)
    ensures
        r == unary_func_of(k),
{
    if k == 9 { Some(OpCode::CPUI_FLOAT_ABS) }
    else if k == 43 { Some(OpCode::CPUI_FLOAT_SQRT) }
    else if k == 42 { Some(OpCode::CPUI_INT_SEXT) }
    else if k == 45 { Some(OpCode::CPUI_INT_ZEXT) }
    else if k == 24 { Some(OpCode::CPUI_FLOAT_FLOAT2FLOAT) }
    else if k == 28 { Some(OpCode::CPUI_FLOAT_INT2FLOAT) }
    else if k == 30 { Some(OpCode::CPUI_FLOAT_NAN) }
    else if k == 44 { Some(OpCode::CPUI_FLOAT_TRUNC) }
    else if k == 13 { Some(OpCode::CPUI_FLOAT_CEIL) }
    else if k == 25 { Some(OpCode::CPUI_FLOAT_FLOOR) }
    else if k == 32 { Some(OpCode::CPUI_FLOAT_ROUND) }
    else { None }
}

fn binary_func_exec(k: usize) -> (r: Option<OpCode>)
    ensures
        r == binary_func_of(k),
{
    if k == 12 { Some(OpCode::CPUI_INT_CARRY) }
    else if k == 41 { Some(OpCode::CPUI_INT_SCARRY) }
    else if k == 40 { Some(OpCode::CPUI_INT_SBORROW) }
    else { None }
}

impl Parser {
    /// A parser over `toks`, at the first token.
    pub fn new<'a>(toks: Vec<Lexeme>, sn: &PcodeSnippet<'a>) -> (r: Parser)
        requires
            sn.wf(),
            forall|i: int| 0 <= i < toks@.len() ==> !(#[trigger] toks@[i] is Eof),
            forall|i: int| 0 <= i < toks@.len() ==> (#[trigger] toks@[i] matches Lexeme::Keyword(k) ==> k < NUM_IDENTS),
        ensures
            r.wf(),
            r.toks == toks,
            !r.failed,
    {
        if toks.len() > 0 {
            let t = Self::token_at(&toks, 0, sn);
            Parser { toks, pos: 1, cur: t, failed: false }
        } else {
            Parser { toks, pos: 0, cur: Token::Eof, failed: false }
        }
    }

    /// Lexeme `i` as a token, an identifier resolved against the snippet's
    /// scope and the language.
    fn token_at<'a>(toks: &Vec<Lexeme>, i: usize, sn: &PcodeSnippet<'a>) -> (r: Token)
        requires
            sn.wf(),
            i < toks@.len(),
            !(toks@[i as int] is Eof),
            toks@[i as int] matches Lexeme::Keyword(k) ==> k < NUM_IDENTS,
        ensures
            token_ok(r),
            !(r is Eof),
    {
        match &toks[i] {
            Lexeme::Keyword(k) => Token::Key(*k),
            Lexeme::Identifier(nm) => sn.classify_identifier(nm.as_slice()),
            Lexeme::Integer(n) => Token::Integer(*n),
            Lexeme::BadInteger => Token::BadInteger,
            Lexeme::Endofstream => Token::Endofstream,
            Lexeme::Eof => Token::BadInteger,
            Lexeme::Char(c) => Token::Char(*c),
        }
    }

    /// Move to the next token, resolving an identifier against the
    /// snippet's scope and the language.
    pub fn advance<'a>(&mut self, sn: &PcodeSnippet<'a>)
        requires
            old(self).wf(),
            sn.wf(),
        ensures
            final(self).wf(),
            final(self).toks == old(self).toks,
            final(self).failed == old(self).failed,
            !(old(self).cur is Eof) ==> final(self).measure() < old(self).measure(),
            final(self).measure() <= old(self).measure(),
    {
        if self.pos < self.toks.len() {
            let t = Self::token_at(&self.toks, self.pos, sn);
            self.cur = t;
            self.pos = self.pos + 1;
        } else {
            self.cur = Token::Eof;
        }
    }

    /// Is the current token the punctuation `c`?
    pub fn is_char(&self, c: u8) -> (r: bool)
        ensures
            r == (self.cur matches Token::Char(x) && x == c),
    {
        match self.cur {
            Token::Char(x) => x == c,
            _ => false,
        }
    }

    /// Is the current token keyword `k`?
    pub fn is_key(&self, k: usize) -> (r: bool)
        ensures
            r == (self.cur matches Token::Key(x) && x == k),
    {
        match self.cur {
            Token::Key(x) => x == k,
            _ => false,
        }
    }

    /// Consume the punctuation `c`, or fail.
    pub fn expect_char<'a>(&mut self, sn: &PcodeSnippet<'a>, c: u8) -> (r: bool)
        requires
            old(self).wf(),
            sn.wf(),
        ensures
            final(self).wf(),
            final(self).toks == old(self).toks,
            final(self).measure() <= old(self).measure(),
            r ==> final(self).measure() < old(self).measure() && final(self).failed == old(self).failed,
            !r ==> final(self).failed,
    {
        if self.is_char(c) {
            self.advance(sn);
            true
        } else {
            self.failed = true;
            false
        }
    }

    /// Consume a number, or fail.
    pub fn expect_integer<'a>(&mut self, sn: &PcodeSnippet<'a>) -> (r: Option<u64>)
        requires
            old(self).wf(),
            sn.wf(),
        ensures
            final(self).wf(),
            final(self).toks == old(self).toks,
            final(self).measure() <= old(self).measure(),
            r is Some ==> final(self).measure() < old(self).measure() && final(self).failed == old(self).failed,
            r is None ==> final(self).failed,
    {
        match self.cur {
            Token::Integer(v) => {
                self.advance(sn);
                Some(v)
            },
            _ => {
                self.failed = true;
                None
            },
        }
    }

    /// Report a grammar error and mark the parse failed.
    pub fn yyerror<'a>(&mut self, sn: &mut PcodeSnippet<'a>, msg: &[u8])
        requires
            old(self).wf(),
            old(sn).wf(),
        ensures
            stepped(old(self), final(self), old(sn), final(sn)),
            final(self).measure() == old(self).measure(),
            final(self).failed,
            final(sn).compile.reported(old(sn).compile, msg@),
    {
        sn.compile.report_error(None, msg);
        self.failed = true;
    }

    /// The binary operator of the current token, if it is one (see
    /// [`binop_of`]).
    pub fn peek_binop(&self) -> (r: Option<(u8, OpCode, bool)>)
        ensures
            r == binop_of(self.cur),
    {
        match self.cur {
            Token::Key(k) => {
                if k == 8 { Some((PREC_BOOL_OR, OpCode::CPUI_BOOL_OR, false)) }
                else if k == 1 { Some((PREC_BOOL_AND, OpCode::CPUI_BOOL_AND, false)) }
                else if k == 7 { Some((PREC_BOOL_AND, OpCode::CPUI_BOOL_XOR, false)) }
                else if k == 4 { Some((PREC_EQ, OpCode::CPUI_INT_EQUAL, false)) }
                else if k == 0 { Some((PREC_EQ, OpCode::CPUI_INT_NOTEQUAL, false)) }
                else if k == 21 { Some((PREC_EQ, OpCode::CPUI_FLOAT_EQUAL, false)) }
                else if k == 14 { Some((PREC_EQ, OpCode::CPUI_FLOAT_NOTEQUAL, false)) }
                else if k == 5 { Some((PREC_CMP, OpCode::CPUI_INT_LESSEQUAL, true)) }
                else if k == 3 { Some((PREC_CMP, OpCode::CPUI_INT_LESSEQUAL, false)) }
                else if k == 35 { Some((PREC_CMP, OpCode::CPUI_INT_SLESS, false)) }
                else if k == 38 { Some((PREC_CMP, OpCode::CPUI_INT_SLESSEQUAL, true)) }
                else if k == 36 { Some((PREC_CMP, OpCode::CPUI_INT_SLESSEQUAL, false)) }
                else if k == 37 { Some((PREC_CMP, OpCode::CPUI_INT_SLESS, true)) }
                else if k == 19 { Some((PREC_CMP, OpCode::CPUI_FLOAT_LESS, false)) }
                else if k == 22 { Some((PREC_CMP, OpCode::CPUI_FLOAT_LESS, true)) }
                else if k == 20 { Some((PREC_CMP, OpCode::CPUI_FLOAT_LESSEQUAL, false)) }
                else if k == 23 { Some((PREC_CMP, OpCode::CPUI_FLOAT_LESSEQUAL, true)) }
                else if k == 2 { Some((PREC_SHIFT, OpCode::CPUI_INT_LEFT, false)) }
                else if k == 6 { Some((PREC_SHIFT, OpCode::CPUI_INT_RIGHT, false)) }
                else if k == 39 { Some((PREC_SHIFT, OpCode::CPUI_INT_SRIGHT, false)) }
                else if k == 16 { Some((PREC_ADD, OpCode::CPUI_FLOAT_ADD, false)) }
                else if k == 17 { Some((PREC_ADD, OpCode::CPUI_FLOAT_SUB, false)) }
                else if k == 34 { Some((PREC_MUL, OpCode::CPUI_INT_SDIV, false)) }
                else if k == 33 { Some((PREC_MUL, OpCode::CPUI_INT_SREM, false)) }
                else if k == 15 { Some((PREC_MUL, OpCode::CPUI_FLOAT_MULT, false)) }
                else if k == 18 { Some((PREC_MUL, OpCode::CPUI_FLOAT_DIV, false)) }
                else { None }
            },
            Token::Char(c) => {
                if c == 124 { Some((PREC_OR, OpCode::CPUI_INT_OR, false)) }
                else if c == 94 { Some((PREC_XOR, OpCode::CPUI_INT_XOR, false)) }
                else if c == 38 { Some((PREC_AND, OpCode::CPUI_INT_AND, false)) }
                else if c == 60 { Some((PREC_CMP, OpCode::CPUI_INT_LESS, false)) }
                else if c == 62 { Some((PREC_CMP, OpCode::CPUI_INT_LESS, true)) }
                else if c == 43 { Some((PREC_ADD, OpCode::CPUI_INT_ADD, false)) }
                else if c == 45 { Some((PREC_ADD, OpCode::CPUI_INT_SUB, false)) }
                else if c == 42 { Some((PREC_MUL, OpCode::CPUI_INT_MULT, false)) }
                else if c == 47 { Some((PREC_MUL, OpCode::CPUI_INT_DIV, false)) }
                else if c == 37 { Some((PREC_MUL, OpCode::CPUI_INT_REM, false)) }
                else { None }
            },
            _ => None,
        }
    }
}


/// The message naming an unknown varnode parameter.
pub open spec fn unknown_varnode_msg(name: Seq<u8>) -> Seq<u8> {
    "Unknown varnode parameter: ".spec_bytes() + name
}

fn unknown_varnode_msg_exec(name: &[u8]) -> (r: Vec<u8>)
    ensures
        r@ == unknown_varnode_msg(name@),
{
    let empty: [u8; 0] = [];
    crate::pcodecompile::concat3("Unknown varnode parameter: ".as_bytes(), name, &empty)
}

/// The constant `val` of size `size` in space `cs`, as a template.
fn const_varnode(cs: AddrSpace, val: u64, size: u64) -> (r: VarnodeTpl)
    ensures
        r == crate::pcodecompile::const_vn(cs, val, size),
{
    VarnodeTpl::new(ConstTpl::new_space(cs), ConstTpl::new_real(ConstType::Real, val), ConstTpl::new_real(ConstType::Real, size))
}

impl Parser {
    /// `expr`: a unary expression followed by binary operators that bind
    /// at least as tightly as `min_prec`, left to right; the comparisons
    /// do not chain.
    pub fn parse_expr<'a>(&mut self, sn: &mut PcodeSnippet<'a>, min_prec: u8) -> (r: Option<ExprTree>)
        requires
            old(self).wf(),
            old(sn).wf(),
            min_prec <= PREC_UNARY,
        ensures
            stepped(old(self), final(self), old(sn), final(sn)),
            r matches Some(e) ==> e.wf() && final(self).measure() < old(self).measure(),
            r is None ==> final(self).failed,
        decreases old(self).measure(), 3nat,
    {
        let first = self.parse_unary(sn);
        let mut lhs = match first {
            Some(e) => e,
            None => {
                return None;
            },
        };
        loop
            invariant
                stepped(old(self), self, old(sn), sn),
                lhs.wf(),
                self.measure() < old(self).measure(),
                min_prec <= PREC_UNARY,
            decreases self.measure(),
        {
            if self.failed {
                return None;
            }
            let (prec, opc, swap) = match self.peek_binop() {
                Some(x) => x,
                None => {
                    break;
                },
            };
            if prec < min_prec {
                break;
            }
            assert(prec <= PREC_MUL);
            self.advance(sn);
            let rhs = match self.parse_expr(sn, prec + 1) {
                Some(e) => e,
                None => {
                    return None;
                },
            };
            lhs = if swap {
                sn.compile.create_op2(opc, rhs, lhs)
            } else {
                sn.compile.create_op2(opc, lhs, rhs)
            };
            if prec == PREC_CMP {
                match self.peek_binop() {
                    Some((np, _, _)) => {
                        if np == PREC_CMP {
                            self.failed = true;
                            return None;
                        }
                    },
                    None => {},
                }
            }
        }
        Some(lhs)
    }

    /// The prefix operators, loads, parenthesized expressions, p-code
    /// functions, user operations and varnodes.
    pub fn parse_unary<'a>(&mut self, sn: &mut PcodeSnippet<'a>) -> (r: Option<ExprTree>)
        requires
            old(self).wf(),
            old(sn).wf(),
        ensures
            stepped(old(self), final(self), old(sn), final(sn)),
            r matches Some(e) ==> e.wf() && final(self).measure() < old(self).measure(),
            r is None ==> final(self).failed,
            prefix_op(old(self).cur) matches Some(opc) ==> (r matches Some(e) ==> prefix_result(e, opc)),
        decreases old(self).measure(), 2nat,
    {
        let mut prefix: Option<OpCode> = None;
        if self.is_char(45) {
            prefix = Some(OpCode::CPUI_INT_2COMP);
        } else if self.is_char(126) {
            prefix = Some(OpCode::CPUI_INT_NEGATE);
        } else if self.is_char(33) {
            prefix = Some(OpCode::CPUI_BOOL_NEGATE);
        } else if self.is_key(17) {
            prefix = Some(OpCode::CPUI_FLOAT_NEG);
        }
        if let Some(opc) = prefix {
            self.advance(sn);
            let e = match self.parse_expr(sn, PREC_UNARY) {
                Some(e) => e,
                None => {
                    return None;
                },
            };
            return Some(sn.compile.create_op(opc, e));
        }
        if self.is_char(42) {
            let qual = match self.parse_sizedstar(sn) {
                Some(q) => q,
                None => {
                    return None;
                },
            };
            let ptr = match self.parse_expr(sn, PREC_UNARY) {
                Some(e) => e,
                None => {
                    return None;
                },
            };
            return match sn.compile.create_load(qual, ptr) {
                Ok(e) => Some(e),
                Err(_) => {
                    self.failed = true;
                    None
                },
            };
        }
        if self.is_char(40) {
            self.advance(sn);
            let e = match self.parse_expr(sn, PREC_LOWEST) {
                Some(e) => e,
                None => {
                    return None;
                },
            };
            if !self.expect_char(sn, 41) {
                return None;
            }
            return Some(e);
        }
        let key: Option<usize> = match self.cur {
            Token::Key(k) => Some(k),
            _ => None,
        };
        if let Some(k) = key {
            if let Some(opc) = unary_func_exec(k) {
                return self.parse_unary_func(sn, opc);
            }
            if let Some(opc) = binary_func_exec(k) {
                return self.parse_binary_func(sn, opc);
            }
            self.failed = true;
            return None;
        }
        let userop: Option<UserOpSymbol> = match &self.cur {
            Token::Sym(SnippetSymbol::UserOp(u)) => Some(UserOpSymbol { name: vstd::slice::slice_to_vec(u.name.as_slice()), index: u.index }),
            _ => None,
        };
        if let Some(usym) = userop {
            self.advance(sn);
            if !self.expect_char(sn, 40) {
                return None;
            }
            let params = match self.parse_paramlist(sn) {
                Some(p) => p,
                None => {
                    return None;
                },
            };
            if !self.expect_char(sn, 41) {
                return None;
            }
            return Some(sn.compile.create_user_op(&usym, params));
        }
        let specific = match &self.cur {
            Token::Sym(sy) => sy.is_specific_exec(),
            _ => false,
        };
        if specific {
            return self.parse_specificsymbol_primary(sn);
        }
        let intvn = match self.cur {
            Token::Integer(_) | Token::BadInteger => true,
            Token::Char(c) => c == 38,
            _ => false,
        };
        if intvn {
            return self.parse_integervarnode_primary(sn);
        }
        let name: Option<Vec<u8>> = match &self.cur {
            Token::Str(nm) => Some(vstd::slice::slice_to_vec(nm.as_slice())),
            _ => None,
        };
        if let Some(nm) = name {
            self.advance(sn);
            let msg = unknown_varnode_msg_exec(nm.as_slice());
            self.yyerror(sn, msg.as_slice());
            return None;
        }
        self.failed = true;
        None
    }

    /// `OP ( expr )` for a unary p-code function.
    fn parse_unary_func<'a>(&mut self, sn: &mut PcodeSnippet<'a>, opc: OpCode) -> (r: Option<ExprTree>)
        requires
            old(self).wf(),
            old(sn).wf(),
            !crate::pcodecompile::shift_class(opc),
            !(old(self).cur is Eof),
        ensures
            stepped(old(self), final(self), old(sn), final(sn)),
            r matches Some(e) ==> e.wf() && final(self).measure() < old(self).measure(),
            r is None ==> final(self).failed,
        decreases old(self).measure(), 1nat,
    {
        self.advance(sn);
        if !self.expect_char(sn, 40) {
            return None;
        }
        let e = match self.parse_expr(sn, PREC_LOWEST) {
            Some(e) => e,
            None => {
                return None;
            },
        };
        if !self.expect_char(sn, 41) {
            return None;
        }
        Some(sn.compile.create_op(opc, e))
    }

    /// `OP ( expr , expr )` for a two-argument p-code function.
    fn parse_binary_func<'a>(&mut self, sn: &mut PcodeSnippet<'a>, opc: OpCode) -> (r: Option<ExprTree>)
        requires
            old(self).wf(),
            old(sn).wf(),
            !(old(self).cur is Eof),
        ensures
            stepped(old(self), final(self), old(sn), final(sn)),
            r matches Some(e) ==> e.wf() && final(self).measure() < old(self).measure(),
            r is None ==> final(self).failed,
        decreases old(self).measure(), 1nat,
    {
        self.advance(sn);
        if !self.expect_char(sn, 40) {
            return None;
        }
        let a = match self.parse_expr(sn, PREC_LOWEST) {
            Some(e) => e,
            None => {
                return None;
            },
        };
        if !self.expect_char(sn, 44) {
            return None;
        }
        let b = match self.parse_expr(sn, PREC_LOWEST) {
            Some(e) => e,
            None => {
                return None;
            },
        };
        if !self.expect_char(sn, 41) {
            return None;
        }
        Some(sn.compile.create_op2(opc, a, b))
    }
}


impl Parser {
    /// `*`, `*:size`, `*[space]` or `*[space]:size`: the space (the default
    /// space when none is named) and size of a load or store.
    pub fn parse_sizedstar<'a>(&mut self, sn: &PcodeSnippet<'a>) -> (r: Option<StarQuality>)
        requires
            old(self).wf(),
            sn.wf(),
        ensures
            final(self).wf(),
            final(self).toks == old(self).toks,
            final(self).measure() <= old(self).measure(),
            r is Some ==> final(self).measure() < old(self).measure(),
            r is None ==> final(self).failed,
    {
        if !self.expect_char(sn, 42) {
            return None;
        }
        if self.is_char(91) {
            self.advance(sn);
            let spc = match &self.cur {
                Token::Sym(SnippetSymbol::Space(s, _)) => Some(*s),
                _ => None,
            };
            let spc = match spc {
                Some(s) => s,
                None => {
                    self.failed = true;
                    return None;
                },
            };
            self.advance(sn);
            if !self.expect_char(sn, 93) {
                return None;
            }
            if self.is_char(58) {
                self.advance(sn);
                let size = match self.expect_integer(sn) {
                    Some(v) => v,
                    None => {
                        return None;
                    },
                };
                return Some(StarQuality { id: ConstTpl::new_space(spc), size: size as u32 });
            }
            return Some(StarQuality { id: ConstTpl::new_space(spc), size: 0 });
        }
        if self.is_char(58) {
            self.advance(sn);
            let size = match self.expect_integer(sn) {
                Some(v) => v,
                None => {
                    return None;
                },
            };
            return Some(StarQuality { id: ConstTpl::new_space(sn.compile.defaultspace), size: size as u32 });
        }
        Some(StarQuality { id: ConstTpl::new_space(sn.compile.defaultspace), size: 0 })
    }

    /// A symbol standing for a varnode, on its own, truncated `sym(n)`,
    /// or as a bit range `sym:n` / `sym[offset, bits]`.
    fn parse_specificsymbol_primary<'a>(&mut self, sn: &mut PcodeSnippet<'a>) -> (r: Option<ExprTree>)
        requires
            old(self).wf(),
            old(sn).wf(),
            old(self).cur matches Token::Sym(sy) && sy.is_specific(),
        ensures
            stepped(old(self), final(self), old(sn), final(sn)),
            r matches Some(e) ==> e.wf() && final(self).measure() < old(self).measure(),
            r is None ==> final(self).failed,
        decreases old(self).measure(), 1nat,
    {
        let sym = match &self.cur {
            Token::Sym(sy) => sy.duplicate(),
            _ => {
                self.failed = true;
                return None;
            },
        };
        self.advance(sn);
        let cs = sn.compile.constantspace;
        let vn = match get_varnode_tpl(&sym, cs) {
            Some(v) => v,
            None => {
                self.failed = true;
                return None;
            },
        };
        let name = vstd::slice::slice_to_vec(sym.name());
        if self.is_char(40) {
            self.advance(sn);
            let iv = match self.parse_integervarnode_primary(sn) {
                Some(e) => e,
                None => {
                    return None;
                },
            };
            if !self.expect_char(sn, 41) {
                return None;
            }
            return Some(sn.compile.create_op2(OpCode::CPUI_SUBPIECE, ExprTree::new(vn), iv));
        }
        if self.is_char(58) {
            self.advance(sn);
            let n = match self.expect_integer(sn) {
                Some(v) => v,
                None => {
                    return None;
                },
            };
            let numbits = n.wrapping_mul(8) as u32;
            return match sn.compile.create_bit_range(vn, name.as_slice(), 0, numbits) {
                Ok(e) => Some(e),
                Err(_) => {
                    self.failed = true;
                    None
                },
            };
        }
        if self.is_char(91) {
            self.advance(sn);
            let off = match self.expect_integer(sn) {
                Some(v) => v,
                None => {
                    return None;
                },
            };
            if !self.expect_char(sn, 44) {
                return None;
            }
            let nbits = match self.expect_integer(sn) {
                Some(v) => v,
                None => {
                    return None;
                },
            };
            if !self.expect_char(sn, 93) {
                return None;
            }
            return match sn.compile.create_bit_range(vn, name.as_slice(), off as u32, nbits as u32) {
                Ok(e) => Some(e),
                Err(_) => {
                    self.failed = true;
                    None
                },
            };
        }
        Some(ExprTree::new(vn))
    }

    /// A number `n` or `n:size` (a constant), or `&varnode` / `&:size varnode`
    /// (an address); a number too large is reported and read as 0.
    fn parse_integervarnode_primary<'a>(&mut self, sn: &mut PcodeSnippet<'a>) -> (r: Option<ExprTree>)
        requires
            old(self).wf(),
            old(sn).wf(),
        ensures
            stepped(old(self), final(self), old(sn), final(sn)),
            r matches Some(e) ==> e.wf() && vn_ok(e.outvn->0) && final(self).measure() < old(self).measure(),
            r is None ==> final(self).failed,
        decreases old(self).measure(), 0nat,
    {
        let cs = sn.compile.constantspace;
        match self.cur {
            Token::Integer(v) => {
                self.advance(sn);
                if self.is_char(58) {
                    self.advance(sn);
                    let sz = match self.expect_integer(sn) {
                        Some(x) => x,
                        None => {
                            return None;
                        },
                    };
                    return Some(ExprTree::new(const_varnode(cs, v, sz)));
                }
                Some(ExprTree::new(const_varnode(cs, v, 0)))
            },
            Token::BadInteger => {
                self.advance(sn);
                self.yyerror(sn, "Parsed integer is too big (overflow)".as_bytes());
                self.failed = false;
                Some(ExprTree::new(const_varnode(cs, 0, 0)))
            },
            Token::Char(c) => {
                if c != 38 {
                    self.failed = true;
                    return None;
                }
                self.advance(sn);
                if self.is_char(58) {
                    self.advance(sn);
                    let size = match self.expect_integer(sn) {
                        Some(x) => x,
                        None => {
                            return None;
                        },
                    };
                    let vn = match self.parse_varnode(sn) {
                        Some(v) => v,
                        None => {
                            return None;
                        },
                    };
                    return Some(ExprTree::new(sn.compile.address_of(vn, size as u32)));
                }
                let vn = match self.parse_varnode(sn) {
                    Some(v) => v,
                    None => {
                        return None;
                    },
                };
                Some(ExprTree::new(sn.compile.address_of(vn, 0)))
            },
            _ => {
                self.failed = true;
                None
            },
        }
    }

    /// A varnode: a symbol standing for one, or a number or address.
    fn parse_varnode<'a>(&mut self, sn: &mut PcodeSnippet<'a>) -> (r: Option<VarnodeTpl>)
        requires
            old(self).wf(),
            old(sn).wf(),
        ensures
            stepped(old(self), final(self), old(sn), final(sn)),
            r matches Some(v) ==> vn_ok(v) && final(self).measure() < old(self).measure(),
            r is None ==> final(self).failed,
        decreases old(self).measure(), 1nat,
    {
        let cs = sn.compile.constantspace;
        let sym: Option<SnippetSymbol> = match &self.cur {
            Token::Sym(sy) => {
                if sy.is_specific_exec() {
                    Some(sy.duplicate())
                } else {
                    None
                }
            },
            _ => None,
        };
        if let Some(sy) = sym {
            self.advance(sn);
            return get_varnode_tpl(&sy, cs);
        }
        let intvn = match self.cur {
            Token::Integer(_) | Token::BadInteger => true,
            Token::Char(c) => c == 38,
            _ => false,
        };
        if intvn {
            return match self.parse_integervarnode_primary(sn) {
                Some(e) => e.outvn,
                None => None,
            };
        }
        let name: Option<Vec<u8>> = match &self.cur {
            Token::Str(nm) => Some(vstd::slice::slice_to_vec(nm.as_slice())),
            _ => None,
        };
        if let Some(nm) = name {
            self.advance(sn);
            let msg = unknown_varnode_msg_exec(nm.as_slice());
            self.yyerror(sn, msg.as_slice());
            return None;
        }
        self.failed = true;
        None
    }

    /// `paramlist`: nothing, or expressions separated by commas.
    fn parse_paramlist<'a>(&mut self, sn: &mut PcodeSnippet<'a>) -> (r: Option<Vec<ExprTree>>)
        requires
            old(self).wf(),
            old(sn).wf(),
        ensures
            stepped(old(self), final(self), old(sn), final(sn)),
            r matches Some(ps) ==> crate::pcodecompile::params_wf(ps@),
            r is None ==> final(self).failed,
        decreases old(self).measure(), 4nat,
    {
        let mut params: Vec<ExprTree> = Vec::new();
        if self.is_char(41) {
            return Some(params);
        }
        let first = match self.parse_expr(sn, PREC_LOWEST) {
            Some(e) => e,
            None => {
                return None;
            },
        };
        params.push(first);
        while self.is_char(44)
            invariant
                stepped(old(self), self, old(sn), sn),
                self.measure() < old(self).measure(),
                crate::pcodecompile::params_wf(params@),
            decreases self.measure(),
        {
            self.advance(sn);
            let e = match self.parse_expr(sn, PREC_LOWEST) {
                Some(e) => e,
                None => {
                    return None;
                },
            };
            let ghost ps0 = params@;
            params.push(e);
            proof {
                assert forall|i: int| 0 <= i < params@.len() implies (#[trigger] params@[i]).wf() by {
                    if i < ps0.len() {
                        assert(params@[i] == ps0[i]);
                    }
                }
            }
        }
        Some(params)
    }
}


/// Is entry `i` the first entry of the scope named `name`?
pub open spec fn first_named(tree: Seq<ScopeEntry>, name: Seq<u8>, i: int) -> bool {
    &&& 0 <= i < tree.len()
    &&& tree[i].name@ == name
    &&& forall|j: int| 0 <= j < i ==> (#[trigger] tree[j]).name@ != name
}

/// Is the symbol one of the special addresses a jump can name?
pub open spec fn is_jump_symbol(sy: SnippetSymbol) -> bool {
    sy is Start || sy is End || sy is Next2 || sy is FlowDest || sy is FlowRef
}

/// A message: `prefix` followed by `name`.
fn msg_with(prefix: &str, name: &[u8]) -> (r: Vec<u8>)
    ensures
        r@ == prefix.spec_bytes() + name@,
{
    let empty: [u8; 0] = [];
    let v = crate::pcodecompile::concat3(prefix.as_bytes(), name, &empty);
    assert(v@ =~= prefix.spec_bytes() + name@);
    v
}

impl PcodeCompile {
    /// Count a reference to label `lab`, in the scope's entry of that name
    /// when it is a label.
    pub fn label_referenced(&mut self, lab: &LabelSymbol)
        ensures
            final(self).tree@.len() == old(self).tree@.len(),
            forall|i: int| 0 <= i < old(self).tree@.len() ==> (#[trigger] final(self).tree@[i]).name@ == old(self).tree@[i].name@,
            forall|i: int| 0 <= i < old(self).tree@.len() && !(first_named(old(self).tree@, lab.name@, i) && old(self).tree@[i].local is Label)
                ==> #[trigger] final(self).tree@[i] == old(self).tree@[i],
            forall|i: int| 0 <= i < old(self).tree@.len() && first_named(old(self).tree@, lab.name@, i) ==> ((
                #[trigger] old(self).tree@[i]).local matches SnippetLocal::Label(l) ==> (final(self).tree@[i].local matches SnippetLocal::Label(m)
                    && m.name@ == l.name@ && m.index == l.index && m.isplaced == l.isplaced
                    && m.refcount == vstd::wrapping::u32_specs::wrapping_add(l.refcount, 1))),
            (PcodeCompile { tree: old(self).tree, ..*final(self) }) == *old(self),
            old(self).wf() ==> final(self).wf(),
    {
        match self.find_local(lab.name.as_slice()) {
            Some(i) => {
                let upd: Option<LabelSymbol> = match &self.tree[i].local {
                    SnippetLocal::Label(l) => Some(
                        LabelSymbol {
                            name: vstd::slice::slice_to_vec(l.name.as_slice()),
                            index: l.index,
                            isplaced: l.isplaced,
                            refcount: l.refcount.wrapping_add(1),
                        },
                    ),
                    _ => None,
                };
                if let Some(nl) = upd {
                    let name = vstd::slice::slice_to_vec(self.tree[i].name.as_slice());
                    self.tree.set(i, ScopeEntry { name, local: SnippetLocal::Label(nl) });
                }
            },
            None => {},
        }
    }
}

impl Parser {
    /// `< name >`: a label of the scope, or a new one defined here.
    fn parse_label<'a>(&mut self, sn: &mut PcodeSnippet<'a>) -> (r: Option<LabelSymbol>)
        requires
            old(self).wf(),
            old(sn).wf(),
        ensures
            stepped(old(self), final(self), old(sn), final(sn)),
            r is Some ==> final(self).measure() < old(self).measure(),
            r is None ==> final(self).failed,
    {
        if !self.expect_char(sn, 60) {
            return None;
        }
        let lab: Option<LabelSymbol> = match &self.cur {
            Token::LabelSym(l) => Some(l.duplicate()),
            _ => None,
        };
        if let Some(l) = lab {
            self.advance(sn);
            if !self.expect_char(sn, 62) {
                return None;
            }
            return Some(l);
        }
        let name: Option<Vec<u8>> = match &self.cur {
            Token::Str(nm) => Some(vstd::slice::slice_to_vec(nm.as_slice())),
            _ => None,
        };
        if let Some(nm) = name {
            self.advance(sn);
            if !self.expect_char(sn, 62) {
                return None;
            }
            return Some(sn.compile.define_label(nm.as_slice()));
        }
        self.failed = true;
        None
    }

    /// The destination of a jump: a special address, an address `n` (or
    /// `n[space]`), or a label; a number too large is reported and read as
    /// 0, an unknown name is reported.
    fn parse_jumpdest<'a>(&mut self, sn: &mut PcodeSnippet<'a>) -> (r: Option<VarnodeTpl>)
        requires
            old(self).wf(),
            old(sn).wf(),
        ensures
            stepped(old(self), final(self), old(sn), final(sn)),
            r matches Some(v) ==> !v.unnamed_flag && final(self).measure() < old(self).measure(),
            r is None ==> final(self).failed,
            old(self).cur matches Token::Integer(n) ==> (r matches Some(d) ==> d.offset.type_ == ConstType::Real
                && d.offset.value_real == n),
            old(self).cur matches Token::Integer(n) ==> (r matches Some(d) ==> d.space.type_ == ConstType::JCurspace
                && d.size.type_ == ConstType::JCurspaceSize || d.space.type_ == ConstType::Spaceid),
            old(self).cur is BadInteger ==> (r matches Some(d) && d.space.type_ == ConstType::JCurspace
                && d.offset.type_ == ConstType::Real && d.offset.value_real == 0
                && final(sn).compile.reported(old(sn).compile, "Parsed integer is too big (overflow)".spec_bytes())),
            old(self).cur == Token::Char(60) ==> (r matches Some(d) ==> d.offset.type_ == ConstType::JRelative
                && d.space.type_ == ConstType::Spaceid && d.space.value_spaceid == Some(old(sn).compile.constantspace)
                && d.size.type_ == ConstType::Real && d.size.value_real == 4),
    {
        let cs = sn.compile.constantspace;
        let jsym: Option<SnippetSymbol> = match &self.cur {
            Token::Sym(sy) => match sy {
                SnippetSymbol::Start(_) | SnippetSymbol::End(_) | SnippetSymbol::Next2(_)
                | SnippetSymbol::FlowDest(_) | SnippetSymbol::FlowRef(_) => Some(sy.duplicate()),
                _ => None,
            },
            _ => None,
        };
        if let Some(sy) = jsym {
            self.advance(sn);
            let symvn = match get_varnode_tpl(&sy, cs) {
                Some(v) => v,
                None => {
                    self.failed = true;
                    return None;
                },
            };
            return Some(VarnodeTpl::new(ConstTpl::new_type(ConstType::JCurspace), symvn.offset, ConstTpl::new_type(ConstType::JCurspaceSize)));
        }
        match self.cur {
            Token::Integer(v) => {
                self.advance(sn);
                if self.is_char(91) {
                    self.advance(sn);
                    let spc = match &self.cur {
                        Token::Sym(SnippetSymbol::Space(s, _)) => Some(*s),
                        _ => None,
                    };
                    let spc = match spc {
                        Some(s) => s,
                        None => {
                            self.failed = true;
                            return None;
                        },
                    };
                    self.advance(sn);
                    if !self.expect_char(sn, 93) {
                        return None;
                    }
                    return Some(VarnodeTpl::new(ConstTpl::new_space(spc), ConstTpl::new_real(ConstType::Real, v), ConstTpl::new_real(ConstType::Real, spc.addr_size as u64)));
                }
                Some(VarnodeTpl::new(ConstTpl::new_type(ConstType::JCurspace), ConstTpl::new_real(ConstType::Real, v), ConstTpl::new_type(ConstType::JCurspaceSize)))
            },
            Token::BadInteger => {
                self.advance(sn);
                self.yyerror(sn, "Parsed integer is too big (overflow)".as_bytes());
                self.failed = false;
                Some(VarnodeTpl::new(ConstTpl::new_type(ConstType::JCurspace), ConstTpl::new_real(ConstType::Real, 0), ConstTpl::new_type(ConstType::JCurspaceSize)))
            },
            Token::Char(c) => {
                if c != 60 {
                    self.failed = true;
                    return None;
                }
                let lab = match self.parse_label(sn) {
                    Some(l) => l,
                    None => {
                        return None;
                    },
                };
                sn.compile.label_referenced(&lab);
                Some(VarnodeTpl::new(ConstTpl::new_space(cs), ConstTpl::new_real(ConstType::JRelative, lab.index as u64), ConstTpl::new_real(ConstType::Real, 4)))
            },
            _ => {
                let name: Option<Vec<u8>> = match &self.cur {
                    Token::Str(nm) => Some(vstd::slice::slice_to_vec(nm.as_slice())),
                    _ => None,
                };
                if let Some(nm) = name {
                    self.advance(sn);
                    let msg = msg_with("Unknown jump destination: ", nm.as_slice());
                    self.yyerror(sn, msg.as_slice());
                    return None;
                }
                self.failed = true;
                None
            },
        }
    }
}


/// The op of a prefix operator token: `-` two's complement, `~` bit
/// negation, `!` boolean negation, `f-` float negation.
pub open spec fn prefix_op(t: Token) -> Option<OpCode> {
    match t {
        Token::Char(c) => if c == 45 {
            Some(OpCode::CPUI_INT_2COMP)
        } else if c == 126 {
            Some(OpCode::CPUI_INT_NEGATE)
        } else if c == 33 {
            Some(OpCode::CPUI_BOOL_NEGATE)
        } else {
            None
        },
        Token::Key(k) => if k == 17 {
            Some(OpCode::CPUI_FLOAT_NEG)
        } else {
            None
        },
        _ => None,
    }
}

/// Does `e` end in op `opc` over one operand, whose output is the
/// expression's value?
pub open spec fn prefix_result(e: ExprTree, opc: OpCode) -> bool {
    &&& e.ops@.len() > 0
    &&& e.ops@.last()@.1 == opc
    &&& e.ops@.last()@.0 == e.outvn
    &&& e.ops@.last()@.2.len() == 1
}

/// The spec of a statement parse: it followed the parse so far, produced
/// ready ops after consuming input, or failed.
pub open spec fn stmt_result<'a>(op: &Parser, np: &Parser, os: &PcodeSnippet<'a>, ns: &PcodeSnippet<'a>, r: Option<Vec<OpTpl>>) -> bool {
    &&& stepped(op, np, os, ns)
    &&& (r matches Some(v) ==> crate::pcodecompile::ops_ok(v@) && np.measure() < op.measure())
    &&& (r is None ==> np.failed)
}

impl Parser {
    /// `goto jumpdest ;` or `goto [ expr ] ;`.
    fn parse_goto_statement<'a>(&mut self, sn: &mut PcodeSnippet<'a>) -> (r: Option<Vec<OpTpl>>)
        requires
            old(self).wf(),
            old(sn).wf(),
            !(old(self).cur is Eof),
        ensures
            stmt_result(old(self), final(self), old(sn), final(sn), r),
    {
        self.advance(sn);
        if self.is_char(91) {
            self.advance(sn);
            let e = match self.parse_expr(sn, PREC_LOWEST) {
                Some(e) => e,
                None => {
                    return None;
                },
            };
            if !self.expect_char(sn, 93) {
                return None;
            }
            if !self.expect_char(sn, 59) {
                return None;
            }
            return Some(sn.compile.create_op_no_out(OpCode::CPUI_BRANCHIND, e));
        }
        let jd = match self.parse_jumpdest(sn) {
            Some(v) => v,
            None => {
                return None;
            },
        };
        if !self.expect_char(sn, 59) {
            return None;
        }
        Some(sn.compile.create_op_no_out(OpCode::CPUI_BRANCH, ExprTree::new(jd)))
    }

    /// `call jumpdest ;` or `call [ expr ] ;`.
    fn parse_call_statement<'a>(&mut self, sn: &mut PcodeSnippet<'a>) -> (r: Option<Vec<OpTpl>>)
        requires
            old(self).wf(),
            old(sn).wf(),
            !(old(self).cur is Eof),
        ensures
            stmt_result(old(self), final(self), old(sn), final(sn), r),
    {
        self.advance(sn);
        if self.is_char(91) {
            self.advance(sn);
            let e = match self.parse_expr(sn, PREC_LOWEST) {
                Some(e) => e,
                None => {
                    return None;
                },
            };
            if !self.expect_char(sn, 93) {
                return None;
            }
            if !self.expect_char(sn, 59) {
                return None;
            }
            return Some(sn.compile.create_op_no_out(OpCode::CPUI_CALLIND, e));
        }
        let jd = match self.parse_jumpdest(sn) {
            Some(v) => v,
            None => {
                return None;
            },
        };
        if !self.expect_char(sn, 59) {
            return None;
        }
        Some(sn.compile.create_op_no_out(OpCode::CPUI_CALL, ExprTree::new(jd)))
    }

    /// `return [ expr ] ;`; a bare `return ;` is reported.
    fn parse_return_statement<'a>(&mut self, sn: &mut PcodeSnippet<'a>) -> (r: Option<Vec<OpTpl>>)
        requires
            old(self).wf(),
            old(sn).wf(),
            !(old(self).cur is Eof),
        ensures
            stmt_result(old(self), final(self), old(sn), final(sn), r),
    {
        self.advance(sn);
        if self.is_char(59) {
            self.advance(sn);
            self.yyerror(sn, "Must specify an indirect parameter for return".as_bytes());
            return None;
        }
        if !self.expect_char(sn, 91) {
            return None;
        }
        let e = match self.parse_expr(sn, PREC_LOWEST) {
            Some(e) => e,
            None => {
                return None;
            },
        };
        if !self.expect_char(sn, 93) {
            return None;
        }
        if !self.expect_char(sn, 59) {
            return None;
        }
        Some(sn.compile.create_op_no_out(OpCode::CPUI_RETURN, e))
    }

    /// `if expr goto jumpdest ;`.
    fn parse_if_statement<'a>(&mut self, sn: &mut PcodeSnippet<'a>) -> (r: Option<Vec<OpTpl>>)
        requires
            old(self).wf(),
            old(sn).wf(),
            !(old(self).cur is Eof),
        ensures
            stmt_result(old(self), final(self), old(sn), final(sn), r),
    {
        self.advance(sn);
        let cond = match self.parse_expr(sn, PREC_LOWEST) {
            Some(e) => e,
            None => {
                return None;
            },
        };
        if !self.is_key(26) {
            self.failed = true;
            return None;
        }
        self.advance(sn);
        let jd = match self.parse_jumpdest(sn) {
            Some(v) => v,
            None => {
                return None;
            },
        };
        if !self.expect_char(sn, 59) {
            return None;
        }
        Some(sn.compile.create_op_no_out2(OpCode::CPUI_CBRANCH, ExprTree::new(jd), cond))
    }

    /// Statements with a symbol on the left: `sym = expr ;` and
    /// `sym[offset, bits] = expr ;`; `sym:n =` and `sym(n)` on the left are
    /// reported.
    fn parse_lhs_statement<'a>(&mut self, sn: &mut PcodeSnippet<'a>) -> (r: Option<Vec<OpTpl>>)
        requires
            old(self).wf(),
            old(sn).wf(),
            old(self).cur matches Token::Sym(sy) && sy.is_specific(),
        ensures
            stmt_result(old(self), final(self), old(sn), final(sn), r),
    {
        let sym = match &self.cur {
            Token::Sym(sy) => sy.duplicate(),
            _ => {
                self.failed = true;
                return None;
            },
        };
        self.advance(sn);
        let cs = sn.compile.constantspace;
        let vn = match get_varnode_tpl(&sym, cs) {
            Some(v) => v,
            None => {
                self.failed = true;
                return None;
            },
        };
        if self.is_char(61) {
            self.advance(sn);
            let mut rhs = match self.parse_expr(sn, PREC_LOWEST) {
                Some(e) => e,
                None => {
                    return None;
                },
            };
            if !self.expect_char(sn, 59) {
                return None;
            }
            if rhs.set_output(vn).is_err() {
                self.failed = true;
                return None;
            }
            return Some(ExprTree::to_vector(rhs));
        }
        if self.is_char(91) {
            self.advance(sn);
            let off = match self.expect_integer(sn) {
                Some(v) => v,
                None => {
                    return None;
                },
            };
            if !self.expect_char(sn, 44) {
                return None;
            }
            let nbits = match self.expect_integer(sn) {
                Some(v) => v,
                None => {
                    return None;
                },
            };
            if !self.expect_char(sn, 93) {
                return None;
            }
            if !self.expect_char(sn, 61) {
                return None;
            }
            let rhs = match self.parse_expr(sn, PREC_LOWEST) {
                Some(e) => e,
                None => {
                    return None;
                },
            };
            if !self.expect_char(sn, 59) {
                return None;
            }
            return match sn.compile.assign_bit_range(vn, off as u32, nbits as u32, rhs) {
                Ok(ops) => Some(ops),
                Err(_) => {
                    self.failed = true;
                    None
                },
            };
        }
        if self.is_char(58) {
            self.advance(sn);
            if self.expect_integer(sn).is_none() {
                return None;
            }
            if self.expect_char(sn, 61) {
                self.yyerror(sn, "Illegal truncation on left-hand side of assignment".as_bytes());
            }
            return None;
        }
        if self.is_char(40) {
            self.advance(sn);
            if self.expect_integer(sn).is_none() {
                return None;
            }
            if self.expect_char(sn, 41) {
                self.yyerror(sn, "Illegal subpiece on left-hand side of assignment".as_bytes());
            }
            return None;
        }
        self.failed = true;
        None
    }

    /// Statements with an unknown name on the left: `name = expr ;` and
    /// `name:size = expr ;` define a new temporary; anything else is an
    /// unknown assignment target, reported.
    fn parse_string_statement<'a>(&mut self, sn: &mut PcodeSnippet<'a>, name: Vec<u8>) -> (r: Option<Vec<OpTpl>>)
        requires
            old(self).wf(),
            old(sn).wf(),
            !(old(self).cur is Eof),
        ensures
            stmt_result(old(self), final(self), old(sn), final(sn), r),
    {
        self.advance(sn);
        if self.is_char(61) {
            self.advance(sn);
            let rhs = match self.parse_expr(sn, PREC_LOWEST) {
                Some(e) => e,
                None => {
                    return None;
                },
            };
            if !self.expect_char(sn, 59) {
                return None;
            }
            return match sn.compile.new_output(false, rhs, name.as_slice(), 0) {
                Ok(ops) => Some(ops),
                Err(_) => {
                    self.failed = true;
                    None
                },
            };
        }
        if self.is_char(58) {
            self.advance(sn);
            let size = match self.expect_integer(sn) {
                Some(v) => v,
                None => {
                    return None;
                },
            };
            if !self.expect_char(sn, 61) {
                return None;
            }
            let rhs = match self.parse_expr(sn, PREC_LOWEST) {
                Some(e) => e,
                None => {
                    return None;
                },
            };
            if !self.expect_char(sn, 59) {
                return None;
            }
            return match sn.compile.new_output(true, rhs, name.as_slice(), size as u32) {
                Ok(ops) => Some(ops),
                Err(_) => {
                    self.failed = true;
                    None
                },
            };
        }
        let msg = msg_with("Unknown assignment varnode: ", name.as_slice());
        self.yyerror(sn, msg.as_slice());
        None
    }

    /// One statement: a label placement, a store, a user operation, a
    /// jump, call, return or conditional jump, or an assignment.
    fn parse_statement<'a>(&mut self, sn: &mut PcodeSnippet<'a>) -> (r: Option<Vec<OpTpl>>)
        requires
            old(self).wf(),
            old(sn).wf(),
        ensures
            stmt_result(old(self), final(self), old(sn), final(sn), r),
    {
        if self.is_char(60) {
            let lab = match self.parse_label(sn) {
                Some(l) => l,
                None => {
                    return None;
                },
            };
            return Some(sn.compile.place_label(&lab));
        }
        if self.is_char(42) {
            let qual = match self.parse_sizedstar(sn) {
                Some(q) => q,
                None => {
                    return None;
                },
            };
            let ptr = match self.parse_expr(sn, PREC_LOWEST) {
                Some(e) => e,
                None => {
                    return None;
                },
            };
            if !self.expect_char(sn, 61) {
                return None;
            }
            let val = match self.parse_expr(sn, PREC_LOWEST) {
                Some(e) => e,
                None => {
                    return None;
                },
            };
            if !self.expect_char(sn, 59) {
                return None;
            }
            return match sn.compile.create_store(qual, ptr, val) {
                Ok(ops) => Some(ops),
                Err(_) => {
                    self.failed = true;
                    None
                },
            };
        }
        let userop: Option<UserOpSymbol> = match &self.cur {
            Token::Sym(SnippetSymbol::UserOp(u)) => Some(UserOpSymbol { name: vstd::slice::slice_to_vec(u.name.as_slice()), index: u.index }),
            _ => None,
        };
        if let Some(usym) = userop {
            self.advance(sn);
            if !self.expect_char(sn, 40) {
                return None;
            }
            let params = match self.parse_paramlist(sn) {
                Some(p) => p,
                None => {
                    return None;
                },
            };
            if !self.expect_char(sn, 41) {
                return None;
            }
            if !self.expect_char(sn, 59) {
                return None;
            }
            return Some(sn.compile.create_user_op_no_out(&usym, params));
        }
        if self.is_key(26) {
            return self.parse_goto_statement(sn);
        }
        if self.is_key(11) {
            return self.parse_call_statement(sn);
        }
        if self.is_key(31) {
            return self.parse_return_statement(sn);
        }
        if self.is_key(27) {
            return self.parse_if_statement(sn);
        }
        let specific = match &self.cur {
            Token::Sym(sy) => sy.is_specific_exec(),
            _ => false,
        };
        if specific {
            return self.parse_lhs_statement(sn);
        }
        let name: Option<Vec<u8>> = match &self.cur {
            Token::Str(nm) => Some(vstd::slice::slice_to_vec(nm.as_slice())),
            _ => None,
        };
        if let Some(nm) = name {
            return self.parse_string_statement(sn, nm);
        }
        self.failed = true;
        None
    }
}


impl Parser {
    /// Append the ops of a statement to the template; a second delay slot
    /// is reported.
    fn add_statement<'a>(&mut self, sn: &mut PcodeSnippet<'a>, result: &mut ConstructTpl, ops: Vec<OpTpl>) -> (r: bool)
        requires
            old(self).wf(),
            old(sn).wf(),
            crate::pcodecompile::ops_ok(ops@),
            crate::pcodecompile::ops_ok(old(result).vec@),
        ensures
            stepped(old(self), final(self), old(sn), final(sn)),
            final(self).measure() == old(self).measure(),
            r ==> crate::pcodecompile::ops_ok(final(result).vec@) && final(self).failed == old(self).failed,
            !r ==> final(self).failed,
            r == crate::semantics::accepts_ops(old(result).delayslot, ops@),
            r ==> final(result).vec@ == old(result).vec@ + ops@,
            r ==> final(result).delayslot == crate::semantics::delay_after(old(result).delayslot, ops@),
            r ==> final(result).numlabels as int == (old(result).numlabels + crate::semantics::count_labels(ops@)) % 0x1_0000_0000,
            final(result).result == old(result).result,
            r ==> *final(self) == *old(self) && *final(sn) == *old(sn),
            !r ==> final(sn).compile.reported(old(sn).compile, "Multiple delayslot declarations".spec_bytes()),
    {
        let ghost ops0 = ops@;
        let ghost v0 = result.vec@;
        if !result.add_op_list(ops) {
            self.yyerror(sn, "Multiple delayslot declarations".as_bytes());
            return false;
        }
        proof {
            crate::pcodecompile::lemma_ops_ok_concat(v0, ops0);
        }
        true
    }

    /// A statement or declaration starting with `local`: `local name ;`,
    /// `local name:size ;`, `local name = expr ;`, `local name:size =
    /// expr ;`; `local sym =` for an existing symbol is reported.
    fn try_parse_local_decl_or_stmt<'a>(&mut self, sn: &mut PcodeSnippet<'a>, result: &mut ConstructTpl) -> (r: bool)
        requires
            old(self).wf(),
            old(sn).wf(),
            !(old(self).cur is Eof),
            crate::pcodecompile::ops_ok(old(result).vec@),
        ensures
            stepped(old(self), final(self), old(sn), final(sn)),
            r ==> crate::pcodecompile::ops_ok(final(result).vec@) && final(self).measure() < old(self).measure(),
            !r ==> final(self).failed,
    {
        self.advance(sn);
        let name: Option<Vec<u8>> = match &self.cur {
            Token::Str(nm) => Some(vstd::slice::slice_to_vec(nm.as_slice())),
            _ => None,
        };
        if let Some(nm) = name {
            self.advance(sn);
            if self.is_char(58) {
                self.advance(sn);
                let size = match self.expect_integer(sn) {
                    Some(v) => v,
                    None => {
                        return false;
                    },
                };
                if self.is_char(59) {
                    self.advance(sn);
                    sn.compile.new_local_definition(nm.as_slice(), size as u32);
                    return true;
                }
                if self.expect_char(sn, 61) {
                    let rhs = match self.parse_expr(sn, PREC_LOWEST) {
                        Some(e) => e,
                        None => {
                            return false;
                        },
                    };
                    if !self.expect_char(sn, 59) {
                        return false;
                    }
                    return match sn.compile.new_output(true, rhs, nm.as_slice(), size as u32) {
                        Ok(ops) => self.add_statement(sn, result, ops),
                        Err(_) => {
                            self.failed = true;
                            false
                        },
                    };
                }
                return false;
            }
            if self.is_char(59) {
                self.advance(sn);
                sn.compile.new_local_definition(nm.as_slice(), 0);
                return true;
            }
            if self.expect_char(sn, 61) {
                let rhs = match self.parse_expr(sn, PREC_LOWEST) {
                    Some(e) => e,
                    None => {
                        return false;
                    },
                };
                if !self.expect_char(sn, 59) {
                    return false;
                }
                return match sn.compile.new_output(true, rhs, nm.as_slice(), 0) {
                    Ok(ops) => self.add_statement(sn, result, ops),
                    Err(_) => {
                        self.failed = true;
                        false
                    },
                };
            }
            return false;
        }
        let symname: Option<Vec<u8>> = match &self.cur {
            Token::Sym(sy) => {
                if sy.is_specific_exec() {
                    Some(vstd::slice::slice_to_vec(sy.name()))
                } else {
                    None
                }
            },
            _ => None,
        };
        if let Some(nm) = symname {
            self.advance(sn);
            if self.is_char(61) {
                let msg = msg_with("Redefinition of symbol: ", nm.as_slice());
                self.yyerror(sn, msg.as_slice());
                return false;
            }
            self.failed = true;
            return false;
        }
        self.failed = true;
        false
    }

    /// The statements and declarations of a snippet, up to its end, added
    /// to `result`.
    fn parse_rtlmid<'a>(&mut self, sn: &mut PcodeSnippet<'a>, result: &mut ConstructTpl)
        requires
            old(self).wf(),
            old(sn).wf(),
            crate::pcodecompile::ops_ok(old(result).vec@),
        ensures
            stepped(old(self), final(self), old(sn), final(sn)),
            !final(self).failed ==> crate::pcodecompile::ops_ok(final(result).vec@),
            final(self).failed || final(self).cur is Endofstream || final(self).cur is Eof,
    {
        loop
            invariant
                stepped(old(self), self, old(sn), sn),
                crate::pcodecompile::ops_ok(result.vec@),
            decreases self.measure(),
        {
            if self.failed {
                return;
            }
            let at_end = match self.cur {
                Token::Endofstream | Token::Eof => true,
                _ => false,
            };
            if at_end {
                return;
            }
            if self.is_key(29) {
                if self.try_parse_local_decl_or_stmt(sn, result) {
                    continue;
                }
                return;
            }
            match self.parse_statement(sn) {
                Some(ops) => {
                    if !self.add_statement(sn, result, ops) {
                        return;
                    }
                },
                None => {
                    return;
                },
            }
        }
    }

    /// A whole snippet: statements up to the end of the text.  On success
    /// the template goes to the snippet's result.
    pub fn parse<'a>(&mut self, sn: &mut PcodeSnippet<'a>) -> (r: bool)
        requires
            old(self).wf(),
            old(sn).wf(),
        ensures
            final(self).wf(),
            final(sn).wf(),
            final(sn).sleigh == old(sn).sleigh,
            final(sn).compile.errorcount >= old(sn).compile.errorcount,
            r ==> (final(sn).result matches Some(ct) && crate::pcodecompile::ops_ok(ct.vec@)),
            !r ==> final(sn).result == old(sn).result,
            r == (!final(self).failed && final(self).cur is Endofstream),
            final(self).toks == old(self).toks,
    {
        let mut result = ConstructTpl::new();
        self.parse_rtlmid(sn, &mut result);
        if self.failed {
            return false;
        }
        let at_end = match self.cur {
            Token::Endofstream => true,
            _ => false,
        };
        if !at_end {
            return false;
        }
        sn.result = Some(result);
        true
    }
}

impl<'a> PcodeSnippet<'a> {
    /// Compile snippet text `buf`: lex and parse it, building the ops of
    /// each statement, then fill in the sizes of varnodes given none.
    /// Returns whether it succeeded; on failure the first error is kept
    /// ("Syntax error" for a grammar error, or the error reported while
    /// building).
    pub fn parse_stream(&mut self, buf: &[u8]) -> (r: bool)
        requires
            old(self).wf(),
        ensures
            final(self).wf(),
            final(self).sleigh == old(self).sleigh,
            r ==> (final(self).result matches Some(ct) && forall|i: int|
                0 <= i < ct.vec@.len() ==> crate::pcodecompile::op_sized(#[trigger] ct.vec@[i])),
            !r && old(self).compile.errorcount >= 0 ==> final(self).compile.errorcount > 0,
    {
        let toks = lex_all(buf);
        let mut parser = Parser::new(toks, self);
        let ok = parser.parse(self);
        if !ok {
            self.compile.report_error(None, "Syntax error".as_bytes());
            return false;
        }
        let mut ct = match self.result.take() {
            Some(c) => c,
            None => {
                self.compile.report_error(None, "Could not resolve at least 1 variable size".as_bytes());
                return false;
            },
        };
        let res = crate::pcodecompile::propagate_size(&mut ct);
        self.result = Some(ct);
        match res {
            Ok(true) => true,
            _ => {
                self.compile.report_error(None, "Could not resolve at least 1 variable size".as_bytes());
                false
            },
        }
    }
}

/// Inside a comment at `j`, with no line feed nor zero byte before the line
/// feed at `end`, the lexer goes on as it would between tokens after it.
proof fn lemma_comment_rest_skipped(buf: Seq<u8>, j: int, end: int, tok: Seq<u8>)
    requires
        0 <= j <= end < buf.len(),
        buf[end] == 10,
        forall|i: int| j <= i < end ==> buf[i] != 10 && buf[i] != 0,
    ensures
        scan(buf, j, LexState::Comment, tok) == scan(buf, end + 1, LexState::Start, tok),
    decreases end - j,
{
    let len = buf.len() as int;
    assert(char_at(buf, j) == buf[j]);
    if j < end {
        assert(scan_measure(len, j + 1, LexState::Comment) < scan_measure(len, j, LexState::Comment));
        lemma_comment_rest_skipped(buf, j + 1, end, tok);
    } else {
        assert(scan_measure(len, j + 1, LexState::Start) < scan_measure(len, j, LexState::Comment));
    }
}

/// A `#` comment runs exactly to the next line feed: from a `#` met between
/// tokens, when the rest of its line holds no zero byte, the lexer goes on
/// exactly as it would from just after the line feed that ends the line,
/// with the same token kind, text and lexemes.
pub proof fn lemma_comment_ends_at_line_feed(
    buf: Seq<u8>,
    g: int,
    n: int,
    tok: Seq<u8>,
    sent: bool,
    fuel: nat,
)
    requires
        0 <= g,
        0 <= n,
        g + n + 1 < buf.len(),
        buf[g] == 35,
        buf[g + n + 1] == 10,
        forall|i: int| g < i < g + n + 1 ==> buf[i] != 10 && buf[i] != 0,
    ensures
        scan(buf, g, LexState::Start, tok) == scan(buf, g + n + 2, LexState::Start, tok),
        next_lexeme(buf, (g, LexState::Start, tok, sent)) == next_lexeme(buf, (g + n + 2, LexState::Start, tok, sent)),
        lex_from(buf, (g, LexState::Start, tok, sent), fuel) == lex_from(buf, (g + n + 2, LexState::Start, tok, sent), fuel),
{
    let len = buf.len() as int;
    assert(char_at(buf, g) == 35);
    assert(scan_measure(len, g + 1, LexState::Comment) < scan_measure(len, g, LexState::Start));
    lemma_comment_rest_skipped(buf, g + 1, g + n + 1, tok);
    assert(scan(buf, g, LexState::Start, tok) == scan(buf, g + 1, LexState::Comment, tok));
}

/// Scanning text that follows a prefix `pre` is scanning that text on its
/// own, with every position moved by the prefix's length.
proof fn lemma_scan_after_prefix(pre: Seq<u8>, rest: Seq<u8>, g: int, st: LexState, tok: Seq<u8>)
    requires
        0 <= g,
    ensures
        ({
            let r = scan(rest, g, st, tok);
            &&& r.1 > g
            &&& scan(pre + rest, pre.len() + g, st, tok) == (r.0, r.1 + pre.len(), r.2, r.3, r.4)
        }),
    decreases scan_measure(rest.len() as int, g, st),
{
    let buf = pre + rest;
    let p = pre.len() as int;
    assert(char_at(buf, p + g) == char_at(rest, g));
    assert(char_at(buf, p + g + 1) == char_at(rest, g + 1));
    assert(char_at(buf, p + g + 2) == char_at(rest, g + 2));
    let c = char_at(rest, g);
    let step = move_step(st, c, char_at(rest, g + 1), char_at(rest, g + 2));
    let ntok = if step.2 == 1 {
        seq![c]
    } else if step.2 == 2 {
        tok.push(c)
    } else {
        tok
    };
    assert(scan_measure(buf.len() as int, p + g + 1, step.0) == scan_measure(rest.len() as int, g + 1, step.0));
    assert(scan_measure(buf.len() as int, p + g, st) == scan_measure(rest.len() as int, g, st));
    if step.1 == LexState::Start && scan_measure(rest.len() as int, g + 1, step.0) < scan_measure(rest.len() as int, g, st) {
        lemma_scan_after_prefix(pre, rest, g + 1, step.0, ntok);
    }
}

/// Lexing text that follows a prefix `pre` gives the lexemes of that text
/// on its own.
proof fn lemma_lex_after_prefix(pre: Seq<u8>, rest: Seq<u8>, q: LexPoint, fuel: nat)
    requires
        0 <= q.0,
    ensures
        lex_from(pre + rest, (pre.len() + q.0, q.1, q.2, q.3), fuel) == lex_from(rest, q, fuel),
    decreases fuel,
{
    if fuel > 0 {
        lemma_scan_after_prefix(pre, rest, q.0, q.1, q.2);
        let n = next_lexeme(rest, q);
        assert(next_lexeme(pre + rest, (pre.len() + q.0, q.1, q.2, q.3)) == (n.0, (pre.len() + n.1.0, n.1.1, n.1.2, n.1.3)));
        lemma_lex_after_prefix(pre, rest, n.1, (fuel - 1) as nat);
    }
}

/// What follows a comment is lexed on its own: from a `#` met between
/// tokens at position `g` of `pre`, where the line feed that ends `pre`
/// closes the comment and the comment holds no zero byte, the lexer yields
/// exactly the lexemes of the text `rest` after it, as if that text stood
/// alone.
pub proof fn lemma_text_after_comment(pre: Seq<u8>, rest: Seq<u8>, g: int, tok: Seq<u8>, sent: bool, fuel: nat)
    requires
        0 <= g < pre.len(),
        pre[g] == 35,
        pre[pre.len() - 1] == 10,
        forall|i: int| g < i < pre.len() - 1 ==> pre[i] != 10 && pre[i] != 0,
    ensures
        lex_from(pre + rest, (g, LexState::Start, tok, sent), fuel) == lex_from(rest, (0, LexState::Start, tok, sent), fuel),
{
    let buf = pre + rest;
    let n = pre.len() - g - 2;
    assert(buf[g] == 35);
    assert(buf[g + n + 1] == 10);
    assert forall|i: int| g < i < g + n + 1 implies buf[i] != 10 && buf[i] != 0 by {
        assert(buf[i] == pre[i]);
    }
    lemma_comment_ends_at_line_feed(buf, g, n, tok, sent, fuel);
    lemma_lex_after_prefix(pre, rest, (0, LexState::Start, tok, sent), fuel);
    assert(pre.len() + 0 == g + n + 2);
}

} // verus!
