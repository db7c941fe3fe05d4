//! The interactive editor's token layer: raw edit tokens accumulated from
//! keystrokes, subscript rendering, and the assembly of finished lexical
//! tokens for the parser.

use vstd::prelude::*;

use crate::equations::parse::{tokens_view, Token, TokenV};
use crate::equations::{Component, ComponentType, CtypeV};
use crate::periodic_table::{num_lookup, SymbolTable};

verus! {

/// The decimal character of one digit.
pub open spec fn digit_char(d: int) -> char {
    if d == 0 {
        '0'
    } else if d == 1 {
        '1'
    } else if d == 2 {
        '2'
    } else if d == 3 {
        '3'
    } else if d == 4 {
        '4'
    } else if d == 5 {
        '5'
    } else if d == 6 {
        '6'
    } else if d == 7 {
        '7'
    } else if d == 8 {
        '8'
    } else {
        '9'
    }
}

/// The Unicode subscript character of one digit.
pub open spec fn sub_char(d: int) -> char {
    if d == 0 {
        '\u{2080}'
    } else if d == 1 {
        '\u{2081}'
    } else if d == 2 {
        '\u{2082}'
    } else if d == 3 {
        '\u{2083}'
    } else if d == 4 {
        '\u{2084}'
    } else if d == 5 {
        '\u{2085}'
    } else if d == 6 {
        '\u{2086}'
    } else if d == 7 {
        '\u{2087}'
    } else if d == 8 {
        '\u{2088}'
    } else {
        '\u{2089}'
    }
}

pub open spec fn spec_dec_chars(n: int) -> Seq<char>
    decreases n,
{
    if n < 0 {
        Seq::empty()
    } else if n < 10 {
        seq![digit_char(n)]
    } else {
        spec_dec_chars(n / 10).push(digit_char(n % 10))
    }
}

pub open spec fn spec_sub_chars(n: int) -> Seq<char>
    decreases n,
{
    if n < 0 {
        Seq::empty()
    } else if n < 10 {
        seq![sub_char(n)]
    } else {
        spec_sub_chars(n / 10).push(sub_char(n % 10))
    }
}

/// The Unicode subscript character for one digit.
pub fn subscript_util(digit: u32) -> (c: char)
    requires
        digit < 10,
    ensures
        c == sub_char(digit as int),
{
    if digit == 0 {
        '\u{2080}'
    } else if digit == 1 {
        '\u{2081}'
    } else if digit == 2 {
        '\u{2082}'
    } else if digit == 3 {
        '\u{2083}'
    } else if digit == 4 {
        '\u{2084}'
    } else if digit == 5 {
        '\u{2085}'
    } else if digit == 6 {
        '\u{2086}'
    } else if digit == 7 {
        '\u{2087}'
    } else if digit == 8 {
        '\u{2088}'
    } else {
        '\u{2089}'
    }
}

pub fn sub_chars_of(n: usize) -> (v: Vec<char>)
    ensures
        v@ == spec_sub_chars(n as int),
{
    sub_chars_rec(n)
}

fn sub_chars_rec(n: usize) -> (v: Vec<char>)
    ensures
        v@ == spec_sub_chars(n as int),
    decreases n,
{
    if n < 10 {
        let mut v: Vec<char> = Vec::new();
        v.push(subscript_util(n as u32));
        proof {
            assert(v@ =~= seq![sub_char(n as int)]);
        }
        v
    } else {
        let mut v = sub_chars_rec(n / 10);
        v.push(subscript_util((n % 10) as u32));
        v
    }
}

fn sub_chars(n: u32) -> (v: Vec<char>)
    ensures
        v@ == spec_sub_chars(n as int),
    decreases n,
{
    if n < 10 {
        let mut v: Vec<char> = Vec::new();
        v.push(subscript_util(n));
        proof {
            assert(v@ =~= seq![sub_char(n as int)]);
        }
        v
    } else {
        let mut v = sub_chars(n / 10);
        v.push(subscript_util(n % 10));
        v
    }
}

/// Renders a number with Unicode subscript digits.
pub fn subscript_num(num: u32) -> (s: String)
    requires
        num >= 1,
    ensures
        s@ == spec_sub_chars(num as int),
{
    let v = sub_chars(num);
    chars_to_string(&v)
}

fn dec_chars(n: usize) -> (v: Vec<char>)
    ensures
        v@ == spec_dec_chars(n as int),
    decreases n,
{
    if n < 10 {
        let d = digit_exec(n);
        let mut v: Vec<char> = Vec::new();
        v.push(d);
        proof {
            assert(v@ =~= seq![digit_char(n as int)]);
        }
        v
    } else {
        let mut v = dec_chars(n / 10);
        v.push(digit_exec(n % 10));
        v
    }
}

fn digit_exec(d: usize) -> (c: char)
    requires
        d < 10,
    ensures
        c == digit_char(d as int),
{
    if d == 0 {
        '0'
    } else if d == 1 {
        '1'
    } else if d == 2 {
        '2'
    } else if d == 3 {
        '3'
    } else if d == 4 {
        '4'
    } else if d == 5 {
        '5'
    } else if d == 6 {
        '6'
    } else if d == 7 {
        '7'
    } else if d == 8 {
        '8'
    } else {
        '9'
    }
}

/// The decimal digits of a number, as characters.
pub fn decimal_chars(n: usize) -> (v: Vec<char>)
    ensures
        v@ == spec_dec_chars(n as int),
{
    dec_chars(n)
}

/// Relies on String's `FromIterator` implementation: collecting characters
/// yields the string of exactly those characters, in order.
#[verifier::external_body]
pub fn chars_to_string(v: &Vec<char>) -> (s: String)
    ensures
        s@ == v@,
{
    v.iter().collect()
}

/// One raw token of the interactive editor, as accumulated from
/// keystrokes before a line is finished.
#[derive(Debug)]
pub enum TUIToken {
    Coefficient(Vec<char>),
    Element(Vec<char>),
    Subscript(Vec<char>),
    Plus,
    Equals,
    LParen,
    RParen,
    Whitespace(usize),
}

/// The mathematical shape of a raw editor token.
pub enum TuiTokenV {
    Coefficient(Seq<char>),
    Element(Seq<char>),
    Subscript(Seq<char>),
    Plus,
    Equals,
    LParen,
    RParen,
    Whitespace(usize),
}

impl View for TUIToken {
    type V = TuiTokenV;

    open spec fn view(&self) -> TuiTokenV {
        match self {
            TUIToken::Coefficient(s) => TuiTokenV::Coefficient(s@),
            TUIToken::Element(s) => TuiTokenV::Element(s@),
            TUIToken::Subscript(s) => TuiTokenV::Subscript(s@),
            TUIToken::Plus => TuiTokenV::Plus,
            TUIToken::Equals => TuiTokenV::Equals,
            TUIToken::LParen => TuiTokenV::LParen,
            TUIToken::RParen => TuiTokenV::RParen,
            TUIToken::Whitespace(n) => TuiTokenV::Whitespace(*n),
        }
    }
}

/// Whether the interactive session should end.
pub enum ShouldExit {
    Yes,
    No,
}

pub open spec fn tui_tokens_view(s: Seq<TUIToken>) -> Seq<TuiTokenV> {
    Seq::new(s.len(), |i: int| s[i]@)
}

/// ASCII digit.
pub open spec fn is_digit_c(c: char) -> bool {
    ('0' as u32) <= (c as u32) && (c as u32) <= ('9' as u32)
}

/// ASCII lower-case letter.
pub open spec fn is_lower_c(c: char) -> bool {
    ('a' as u32) <= (c as u32) && (c as u32) <= ('z' as u32)
}

/// ASCII letter.
pub open spec fn is_alpha_c(c: char) -> bool {
    is_lower_c(c) || (('A' as u32) <= (c as u32) && (c as u32) <= ('Z' as u32))
}

pub open spec fn digit_val_c(c: char) -> int {
    c as u32 - ('0' as u32)
}

fn is_digit_exec(c: char) -> (r: bool)
    ensures
        r == is_digit_c(c),
{
    let u = c as u32;
    48 <= u && u <= 57
}

fn is_lower_exec(c: char) -> (r: bool)
    ensures
        r == is_lower_c(c),
{
    let u = c as u32;
    97 <= u && u <= 122
}

fn is_alpha_exec(c: char) -> (r: bool)
    ensures
        r == is_alpha_c(c),
{
    let u = c as u32;
    (97 <= u && u <= 122) || (65 <= u && u <= 90)
}

/// The editor's state: whether a subscript is being entered, and the raw
/// tokens accumulated so far.
pub struct EditorV {
    pub looking: bool,
    pub toks: Seq<TuiTokenV>,
}

/// What one ordinary keystroke does to the editor: grow the trailing
/// token where the character continues it, else open a fresh token; the
/// returned character is what the screen shows, subscript digits mapped
/// to their Unicode forms. Element symbols and numbers are ASCII; any
/// other character is ignored.
pub open spec fn editor_step(st: EditorV, c: char) -> (EditorV, Option<char>) {
    let looking = if st.looking && !is_digit_c(c) {
        false
    } else {
        st.looking
    };
    let n = st.toks.len() as int;
    if n > 0 && (st.toks[n - 1] is Element) && is_lower_c(c) {
        let s = st.toks[n - 1]->Element_0;
        (
            EditorV { looking, toks: st.toks.update(n - 1, TuiTokenV::Element(s.push(c))) },
            Some(c),
        )
    } else if n > 0 && (st.toks[n - 1] is Subscript) && looking {
        let s = st.toks[n - 1]->Subscript_0;
        (
            EditorV { looking, toks: st.toks.update(n - 1, TuiTokenV::Subscript(s.push(c))) },
            Some(sub_char(digit_val_c(c))),
        )
    } else if n > 0 && (st.toks[n - 1] is Coefficient) && is_digit_c(c) {
        let s = st.toks[n - 1]->Coefficient_0;
        (
            EditorV { looking, toks: st.toks.update(n - 1, TuiTokenV::Coefficient(s.push(c))) },
            Some(c),
        )
    } else if is_digit_c(c) {
        if looking {
            (
                EditorV { looking, toks: st.toks.push(TuiTokenV::Subscript(seq![c])) },
                Some(sub_char(digit_val_c(c))),
            )
        } else {
            (EditorV { looking, toks: st.toks.push(TuiTokenV::Coefficient(seq![c])) }, Some(c))
        }
    } else if is_alpha_c(c) {
        (EditorV { looking, toks: st.toks.push(TuiTokenV::Element(seq![c])) }, Some(c))
    } else {
        (EditorV { looking, toks: st.toks }, None)
    }
}

/// What a backspace does: shorten the trailing token, dropping it when it
/// becomes empty.
pub open spec fn editor_backspace(st: EditorV) -> EditorV {
    let n = st.toks.len() as int;
    if n == 0 {
        st
    } else {
        match st.toks[n - 1] {
            TuiTokenV::Whitespace(w) => {
                if w <= 1 {
                    EditorV { looking: st.looking, toks: st.toks.drop_last() }
                } else {
                    EditorV {
                        looking: st.looking,
                        toks: st.toks.update(n - 1, TuiTokenV::Whitespace((w - 1) as usize)),
                    }
                }
            },
            TuiTokenV::Element(s) => {
                if s.len() <= 1 {
                    EditorV { looking: st.looking, toks: st.toks.drop_last() }
                } else {
                    EditorV {
                        looking: st.looking,
                        toks: st.toks.update(n - 1, TuiTokenV::Element(s.drop_last())),
                    }
                }
            },
            TuiTokenV::Subscript(s) => {
                if s.len() <= 1 {
                    EditorV { looking: st.looking, toks: st.toks.drop_last() }
                } else {
                    EditorV {
                        looking: st.looking,
                        toks: st.toks.update(n - 1, TuiTokenV::Subscript(s.drop_last())),
                    }
                }
            },
            _ => EditorV { looking: st.looking, toks: st.toks.drop_last() },
        }
    }
}

/// What a whitespace keystroke does: extend a trailing whitespace run or
/// open one, and leave subscript mode.
pub open spec fn editor_whitespace(st: EditorV) -> EditorV {
    let n = st.toks.len() as int;
    if n > 0 && (st.toks[n - 1] is Whitespace) {
        let w = st.toks[n - 1]->Whitespace_0;
        if w < usize::MAX {
            EditorV {
                looking: false,
                toks: st.toks.update(n - 1, TuiTokenV::Whitespace((w + 1) as usize)),
            }
        } else {
            EditorV { looking: false, toks: st.toks }
        }
    } else {
        EditorV { looking: false, toks: st.toks.push(TuiTokenV::Whitespace(1)) }
    }
}

/// The keystroke-to-token accumulator of the interactive editor: raw
/// tokens grow character by character and are later assembled into the
/// parser's tokens.
pub struct TokenEditor {
    pub looking_for_subscript: bool,
    pub tokens: Vec<TUIToken>,
}

impl View for TokenEditor {
    type V = EditorV;

    open spec fn view(&self) -> EditorV {
        EditorV { looking: self.looking_for_subscript, toks: tui_tokens_view(self.tokens@) }
    }
}

impl TokenEditor {
    /// A fresh editor with no pending tokens.
    pub fn new() -> (e: TokenEditor)
        ensures
            !e@.looking,
            e@.toks.len() == 0,
    {
        let e = TokenEditor { looking_for_subscript: false, tokens: Vec::new() };
        proof {
            assert(e@.toks =~= Seq::<TuiTokenV>::empty());
        }
        e
    }

    /// Enters subscript mode: the next digits form a subscript.
    pub fn subscript_start(&mut self)
        ensures
            final(self)@.looking,
            final(self)@.toks == old(self)@.toks,
    {
        self.looking_for_subscript = true;
    }

    /// Appends one ready-made token, as for `+`, `=` and parentheses.
    pub fn handle_token(&mut self, token: TUIToken)
        ensures
            final(self)@.toks == old(self)@.toks.push(token@),
            final(self)@.looking == old(self)@.looking,
    {
        self.tokens.push(token);
        proof {
            assert(self@.toks =~= old(self)@.toks.push(token@));
        }
    }

    /// Takes a whitespace keystroke.
    pub fn handle_whitespace(&mut self)
        ensures
            final(self)@ == editor_whitespace(old(self)@),
    {
        let n = self.tokens.len();
        let mut done = false;
        if n > 0 {
            match self.tokens.pop() {
                Some(t) => {
                    match t {
                        TUIToken::Whitespace(w) => {
                            if w < usize::MAX {
                                self.tokens.push(TUIToken::Whitespace(w + 1));
                            } else {
                                self.tokens.push(TUIToken::Whitespace(w));
                            }
                            done = true;
                            proof {
                                assert(self@.toks =~= editor_whitespace(old(self)@).toks);
                            }
                        },
                        other => {
                            self.tokens.push(other);
                            proof {
                                assert(self@.toks =~= old(self)@.toks);
                            }
                        },
                    }
                },
                None => {
                },
            }
        }
        if !done {
            self.tokens.push(TUIToken::Whitespace(1));
            proof {
                assert(self@.toks =~= editor_whitespace(old(self)@).toks);
            }
        }
        self.looking_for_subscript = false;
    }

    /// Takes one ordinary keystroke; returns the character the screen
    /// should show, if any.
    pub fn accept_char(&mut self, c: char) -> (shown: Option<char>)
        ensures
            final(self)@ == editor_step(old(self)@, c).0,
            shown == editor_step(old(self)@, c).1,
    {
        if self.looking_for_subscript && !is_digit_exec(c) {
            self.looking_for_subscript = false;
        }
        let n = self.tokens.len();
        if n > 0 {
            match self.tokens.pop() {
                Some(t) => {
                    match t {
                        TUIToken::Element(mut s) => {
                            if is_lower_exec(c) {
                                s.push(c);
                                self.tokens.push(TUIToken::Element(s));
                                proof {
                                    assert(self@.toks =~= editor_step(old(self)@, c).0.toks);
                                }
                                return Some(c);
                            }
                            self.tokens.push(TUIToken::Element(s));
                            proof {
                                assert(self@.toks =~= old(self)@.toks);
                            }
                        },
                        TUIToken::Subscript(mut s) => {
                            if self.looking_for_subscript {
                                s.push(c);
                                self.tokens.push(TUIToken::Subscript(s));
                                proof {
                                    assert(self@.toks =~= editor_step(old(self)@, c).0.toks);
                                }
                                return Some(subscript_util((c as u32) - 48));
                            }
                            self.tokens.push(TUIToken::Subscript(s));
                            proof {
                                assert(self@.toks =~= old(self)@.toks);
                            }
                        },
                        TUIToken::Coefficient(mut s) => {
                            if is_digit_exec(c) {
                                s.push(c);
                                self.tokens.push(TUIToken::Coefficient(s));
                                proof {
                                    assert(self@.toks =~= editor_step(old(self)@, c).0.toks);
                                }
                                return Some(c);
                            }
                            self.tokens.push(TUIToken::Coefficient(s));
                            proof {
                                assert(self@.toks =~= old(self)@.toks);
                            }
                        },
                        other => {
                            self.tokens.push(other);
                            proof {
                                assert(self@.toks =~= old(self)@.toks);
                            }
                        },
                    }
                },
                None => {
                },
            }
        }
        if is_digit_exec(c) {
            if self.looking_for_subscript {
                let mut s: Vec<char> = Vec::new();
                s.push(c);
                self.tokens.push(TUIToken::Subscript(s));
                proof {
                    assert(s@ =~= seq![c]);
                    assert(self@.toks =~= editor_step(old(self)@, c).0.toks);
                }
                return Some(subscript_util((c as u32) - 48));
            }
            let mut s: Vec<char> = Vec::new();
            s.push(c);
            self.tokens.push(TUIToken::Coefficient(s));
            proof {
                assert(s@ =~= seq![c]);
                assert(self@.toks =~= editor_step(old(self)@, c).0.toks);
            }
            return Some(c);
        }
        if is_alpha_exec(c) {
            let mut s: Vec<char> = Vec::new();
            s.push(c);
            self.tokens.push(TUIToken::Element(s));
            proof {
                assert(s@ =~= seq![c]);
                assert(self@.toks =~= editor_step(old(self)@, c).0.toks);
            }
            return Some(c);
        }
        None
    }

    /// Takes a backspace keystroke.
    pub fn backspace(&mut self)
        ensures
            final(self)@ == editor_backspace(old(self)@),
    {
        let n = self.tokens.len();
        if n == 0 {
            return ;
        }
        match self.tokens.pop() {
            Some(t) => {
                match t {
                    TUIToken::Whitespace(w) => {
                        if w > 1 {
                            self.tokens.push(TUIToken::Whitespace(w - 1));
                            proof {
                                assert(self@.toks =~= editor_backspace(old(self)@).toks);
                            }
                        } else {
                            proof {
                                assert(self@.toks =~= editor_backspace(old(self)@).toks);
                            }
                        }
                    },
                    TUIToken::Element(mut s) => {
                        if s.len() > 1 {
                            let _dropped = s.pop();
                            self.tokens.push(TUIToken::Element(s));
                            proof {
                                assert(self@.toks =~= editor_backspace(old(self)@).toks);
                            }
                        } else {
                            proof {
                                assert(self@.toks =~= editor_backspace(old(self)@).toks);
                            }
                        }
                    },
                    TUIToken::Subscript(mut s) => {
                        if s.len() > 1 {
                            let _dropped = s.pop();
                            self.tokens.push(TUIToken::Subscript(s));
                            proof {
                                assert(self@.toks =~= editor_backspace(old(self)@).toks);
                            }
                        } else {
                            proof {
                                assert(self@.toks =~= editor_backspace(old(self)@).toks);
                            }
                        }
                    },
                    _ => {
                        proof {
                            assert(self@.toks =~= editor_backspace(old(self)@).toks);
                        }
                    },
                }
            },
            None => {
            },
        }
    }

    /// Drops all pending tokens, as after a finished line.
    pub fn clear(&mut self)
        ensures
            final(self)@.toks.len() == 0,
            final(self)@.looking == old(self)@.looking,
    {
        self.tokens = Vec::new();
        proof {
            assert(self@.toks =~= Seq::<TuiTokenV>::empty());
        }
    }
}

/// The assembly errors of the raw-token stream.
#[derive(Debug, PartialEq, Eq, Structural)]
pub enum TuiError {
    /// A group opened inside another group.
    AlreadyParenthesised,
    /// An element symbol has no entry in the table.
    ElementNotFound,
    /// A number is empty, holds a non-digit, is zero, or does not fit.
    BadNumber,
    /// A subscript with nothing before it to attach to.
    SubscriptWithoutPreceding,
    /// A group token stream left a group in an impossible shape.
    MalformedGroup,
}

pub open spec fn all_digits(s: Seq<char>) -> bool {
    forall|i: int| 0 <= i < s.len() ==> is_digit_c(#[trigger] s[i])
}

/// The value of a digit string, most significant first.
pub open spec fn digits_val(s: Seq<char>) -> int
    decreases s.len(),
{
    if s.len() == 0 {
        0
    } else {
        digits_val(s.drop_last()) * 10 + digit_val_c(s.last())
    }
}

/// A number the editor accepts: nonempty digits, positive, machine-sized.
pub open spec fn valid_number(s: Seq<char>) -> bool {
    &&& s.len() >= 1
    &&& all_digits(s)
    &&& digits_val(s) >= 1
    &&& digits_val(s) <= usize::MAX
}

proof fn lemma_digits_val_nonneg(s: Seq<char>)
    requires
        all_digits(s),
    ensures
        digits_val(s) >= 0,
    decreases s.len(),
{
    if s.len() > 0 {
        assert(all_digits(s.drop_last()));
        lemma_digits_val_nonneg(s.drop_last());
        assert(digits_val(s.drop_last()) * 10 >= 0) by (nonlinear_arith)
            requires
                digits_val(s.drop_last()) >= 0,
        ;
    }
}

proof fn lemma_digits_val_mono(s: Seq<char>, k: int)
    requires
        all_digits(s),
        0 <= k <= s.len(),
    ensures
        digits_val(s) >= digits_val(s.take(k)),
    decreases s.len(),
{
    if k == s.len() {
        assert(s.take(k) =~= s);
    } else {
        assert(all_digits(s.drop_last()));
        assert(s.drop_last().take(k) =~= s.take(k));
        lemma_digits_val_mono(s.drop_last(), k);
        lemma_digits_val_nonneg(s.drop_last());
        assert(digits_val(s.drop_last()) * 10 >= digits_val(s.drop_last())) by (nonlinear_arith)
            requires
                digits_val(s.drop_last()) >= 0,
        ;
    }
}

/// Reads a positive machine-sized number from a digit string.
pub fn parse_number(v: &Vec<char>) -> (r: Option<usize>)
    ensures
        r matches Some(n) ==> valid_number(v@) && n == digits_val(v@),
        r is None ==> !valid_number(v@),
{
    if v.len() == 0 {
        return None;
    }
    let mut acc: usize = 0;
    let mut i: usize = 0;
    while i < v.len()
        invariant
            i <= v@.len(),
            all_digits(v@.take(i as int)),
            acc == digits_val(v@.take(i as int)),
        decreases v@.len() - i,
    {
        let c = v[i];
        if !is_digit_exec(c) {
            return None;
        }
        let d = (c as u32) - 48;
        proof {
            assert(v@.take(i + 1).drop_last() =~= v@.take(i as int));
            assert(v@.take(i + 1).last() == v@[i as int]);
            assert(all_digits(v@.take(i + 1)));
        }
        let next = match acc.checked_mul(10) {
            Some(m) => m.checked_add(d as usize),
            None => None,
        };
        match next {
            Some(a) => {
                acc = a;
            },
            None => {
                proof {
                    assert(v@.take(v@.len() as int) =~= v@);
                    if all_digits(v@) {
                        lemma_digits_val_mono(v@, i + 1);
                        assert(digits_val(v@) > usize::MAX);
                    }
                }
                return None;
            },
        }
        i = i + 1;
    }
    proof {
        assert(v@.take(v@.len() as int) =~= v@);
    }
    if acc == 0 {
        return None;
    }
    Some(acc)
}

/// The component views of a stack of components.
pub open spec fn ctypes_vv(s: Seq<ComponentType>) -> Seq<CtypeV> {
    Seq::new(s.len(), |i: int| s[i]@)
}

/// The parser tokens a flushed component stack turns into.
pub open spec fn comp_tokens(s: Seq<CtypeV>) -> Seq<TokenV> {
    Seq::new(s.len(), |i: int| TokenV::Component(s[i]))
}

/// The assembler's state: finished tokens, the open component stack, and
/// whether a parenthesized group is open.
pub struct AsmState {
    pub toks: Seq<TokenV>,
    pub stack: Seq<CtypeV>,
    pub paren: bool,
}

/// The state after the pending components are flushed to the tokens.
pub open spec fn asm_flush(st: AsmState) -> AsmState {
    AsmState { toks: st.toks + comp_tokens(st.stack), stack: Seq::empty(), paren: st.paren }
}

/// What one raw token does to the assembler.
pub open spec fn asm_step(
    entries: Seq<(u32, Vec<char>)>,
    st: AsmState,
    t: TuiTokenV,
) -> Result<AsmState, TuiError> {
    match t {
        TuiTokenV::LParen => {
            if st.paren {
                Err(TuiError::AlreadyParenthesised)
            } else {
                Ok(
                    AsmState {
                        toks: st.toks,
                        stack: st.stack.push(CtypeV::Multiple(Seq::empty(), 1)),
                        paren: true,
                    },
                )
            }
        },
        TuiTokenV::RParen => Ok(AsmState { toks: st.toks, stack: st.stack, paren: false }),
        TuiTokenV::Element(sym) => {
            match num_lookup(entries, sym) {
                None => Err(TuiError::ElementNotFound),
                Some(num) => {
                    if !st.paren {
                        Ok(
                            AsmState {
                                toks: st.toks,
                                stack: st.stack.push(
                                    CtypeV::Element(Component { element: num, subscript: 1 }),
                                ),
                                paren: false,
                            },
                        )
                    } else if st.stack.len() >= 1 && st.stack.last() is Multiple {
                        let members = st.stack.last()->Multiple_0;
                        let mult = st.stack.last()->Multiple_1;
                        Ok(
                            AsmState {
                                toks: st.toks,
                                stack: st.stack.update(
                                    st.stack.len() - 1,
                                    CtypeV::Multiple(
                                        members.push(Component { element: num, subscript: 1 }),
                                        mult,
                                    ),
                                ),
                                paren: true,
                            },
                        )
                    } else {
                        Err(TuiError::MalformedGroup)
                    }
                },
            }
        },
        TuiTokenV::Subscript(s) => {
            if !valid_number(s) {
                Err(TuiError::BadNumber)
            } else if st.stack.len() == 0 {
                Err(TuiError::SubscriptWithoutPreceding)
            } else {
                let n = digits_val(s) as usize;
                match st.stack.last() {
                    CtypeV::Element(comp) => Ok(
                        AsmState {
                            toks: st.toks,
                            stack: st.stack.update(
                                st.stack.len() - 1,
                                CtypeV::Element(
                                    Component { element: comp.element, subscript: n },
                                ),
                            ),
                            paren: st.paren,
                        },
                    ),
                    CtypeV::Multiple(members, mult) => {
                        if !st.paren {
                            Ok(
                                AsmState {
                                    toks: st.toks,
                                    stack: st.stack.update(
                                        st.stack.len() - 1,
                                        CtypeV::Multiple(members, n),
                                    ),
                                    paren: st.paren,
                                },
                            )
                        } else if members.len() >= 1 {
                            Ok(
                                AsmState {
                                    toks: st.toks,
                                    stack: st.stack.update(
                                        st.stack.len() - 1,
                                        CtypeV::Multiple(
                                            members.update(
                                                members.len() - 1,
                                                Component {
                                                    element: members.last().element,
                                                    subscript: n,
                                                },
                                            ),
                                            mult,
                                        ),
                                    ),
                                    paren: st.paren,
                                },
                            )
                        } else {
                            Err(TuiError::SubscriptWithoutPreceding)
                        }
                    },
                }
            }
        },
        TuiTokenV::Coefficient(s) => {
            if !valid_number(s) {
                Err(TuiError::BadNumber)
            } else {
                let f = asm_flush(st);
                Ok(
                    AsmState {
                        toks: f.toks.push(TokenV::Coefficient(digits_val(s) as usize)),
                        stack: f.stack,
                        paren: f.paren,
                    },
                )
            }
        },
        TuiTokenV::Equals => {
            let f = asm_flush(st);
            Ok(AsmState { toks: f.toks.push(TokenV::Arrow), stack: f.stack, paren: f.paren })
        },
        TuiTokenV::Plus => {
            let f = asm_flush(st);
            Ok(AsmState { toks: f.toks.push(TokenV::Plus), stack: f.stack, paren: f.paren })
        },
        TuiTokenV::Whitespace(_) => Ok(asm_flush(st)),
    }
}

/// Runs the assembler over the raw tokens from position `i`.
pub open spec fn asm_run(
    entries: Seq<(u32, Vec<char>)>,
    st: AsmState,
    s: Seq<TuiTokenV>,
    i: int,
) -> Result<AsmState, TuiError>
    decreases s.len() - i,
{
    if i < 0 || i >= s.len() {
        Ok(st)
    } else {
        match asm_step(entries, st, s[i]) {
            Ok(st2) => asm_run(entries, st2, s, i + 1),
            Err(e) => Err(e),
        }
    }
}

pub open spec fn asm_init() -> AsmState {
    AsmState { toks: Seq::empty(), stack: Seq::empty(), paren: false }
}

/// The parser tokens that a whole raw-token stream assembles to.
pub open spec fn assemble_spec(entries: Seq<(u32, Vec<char>)>, s: Seq<TuiTokenV>) -> Result<
    Seq<TokenV>,
    TuiError,
> {
    match asm_run(entries, asm_init(), s, 0) {
        Ok(st) => Ok(asm_flush(st).toks),
        Err(e) => Err(e),
    }
}

fn stack_tokens(stack: &Vec<ComponentType>) -> (r: Vec<Token>)
    ensures
        tokens_view(r@) == comp_tokens(ctypes_vv(stack@)),
{
    let mut r: Vec<Token> = Vec::new();
    let mut k: usize = 0;
    while k < stack.len()
        invariant
            k <= stack@.len(),
            r@.len() == k,
            forall|j: int| 0 <= j < k ==> (#[trigger] r@[j])@ == TokenV::Component(stack@[j]@),
        decreases stack@.len() - k,
    {
        let cloned = stack[k].clone();
        r.push(Token::Component(cloned));
        k = k + 1;
    }
    proof {
        assert(tokens_view(r@) =~= comp_tokens(ctypes_vv(stack@)));
    }
    r
}

fn flush_stack(out: &mut Vec<Token>, stack: &mut Vec<ComponentType>)
    ensures
        tokens_view(final(out)@) == tokens_view(old(out)@) + comp_tokens(ctypes_vv(old(stack)@)),
        final(stack)@.len() == 0,
{
    let mut tail = stack_tokens(stack);
    let ghost pre = out@;
    let ghost tailv = tail@;
    out.append(&mut tail);
    let empty_stack: Vec<ComponentType> = Vec::new();
    *stack = empty_stack;
    proof {
        assert(tokens_view(pre + tailv) =~= tokens_view(pre) + tokens_view(tailv));
    }
}

/// Assembles the raw editor tokens of a finished line into the parser's
/// lexical tokens, resolving element symbols through the table.
pub fn assemble_tokens(tokens: &Vec<TUIToken>, table: &SymbolTable) -> (r: Result<
    Vec<Token>,
    TuiError,
>)
    ensures
        assemble_spec(table.entries@, tui_tokens_view(tokens@)) matches Ok(ts) ==> (r matches Ok(v)
            && tokens_view(v@) == ts),
        assemble_spec(table.entries@, tui_tokens_view(tokens@)) matches Err(e) ==> r == Err::<
            Vec<Token>,
            TuiError,
        >(e),
{
    let ghost entries = table.entries@;
    let ghost tviews = tui_tokens_view(tokens@);
    let mut out: Vec<Token> = Vec::new();
    let mut stack: Vec<ComponentType> = Vec::new();
    let mut paren = false;
    let mut i: usize = 0;
    proof {
        assert(tokens_view(out@) =~= Seq::<TokenV>::empty());
        assert(ctypes_vv(stack@) =~= Seq::<CtypeV>::empty());
        assert(asm_init() == AsmState {
            toks: tokens_view(out@),
            stack: ctypes_vv(stack@),
            paren: paren,
        });
    }
    while i < tokens.len()
        invariant
            i <= tokens@.len(),
            entries == table.entries@,
            tviews == tui_tokens_view(tokens@),
            tviews.len() == tokens@.len(),
            forall|j: int| 0 <= j < tviews.len() ==> tviews[j] == tokens@[j]@,
            asm_run(entries, asm_init(), tviews, 0) == asm_run(
                entries,
                AsmState { toks: tokens_view(out@), stack: ctypes_vv(stack@), paren: paren },
                tviews,
                i as int,
            ),
        decreases tokens@.len() - i,
    {
        let ghost st = AsmState {
            toks: tokens_view(out@),
            stack: ctypes_vv(stack@),
            paren: paren,
        };
        let cur = &tokens[i];
        match cur {
            TUIToken::LParen => {
                if paren {
                    return Err(TuiError::AlreadyParenthesised);
                }
                let members: Vec<Component> = Vec::new();
                stack.push(ComponentType::Multiple(members, 1));
                paren = true;
                proof {
                    let st2 = asm_step(entries, st, tviews[i as int])->Ok_0;
                    assert(ctypes_vv(stack@) =~= st2.stack);
                    assert(tokens_view(out@) =~= st2.toks);
                }
            },
            TUIToken::RParen => {
                paren = false;
            },
            TUIToken::Element(sym) => {
                match table.by_symbol(sym) {
                    None => {
                        return Err(TuiError::ElementNotFound);
                    },
                    Some(num) => {
                        if !paren {
                            stack.push(
                                ComponentType::Element(Component { element: num, subscript: 1 }),
                            );
                            proof {
                                let st2 = asm_step(entries, st, tviews[i as int])->Ok_0;
                                assert(ctypes_vv(stack@) =~= st2.stack);
                                assert(tokens_view(out@) =~= st2.toks);
                            }
                        } else {
                            let top = stack.pop();
                            match top {
                                Some(ComponentType::Multiple(mut members, mult)) => {
                                    members.push(Component { element: num, subscript: 1 });
                                    stack.push(ComponentType::Multiple(members, mult));
                                    proof {
                                        let st2 = asm_step(entries, st, tviews[i as int])->Ok_0;
                                        assert(ctypes_vv(stack@) =~= st2.stack);
                                        assert(tokens_view(out@) =~= st2.toks);
                                    }
                                },
                                Some(other) => {
                                    return Err(TuiError::MalformedGroup);
                                },
                                None => {
                                    return Err(TuiError::MalformedGroup);
                                },
                            }
                        }
                    },
                }
            },
            TUIToken::Subscript(s) => {
                match parse_number(s) {
                    None => {
                        return Err(TuiError::BadNumber);
                    },
                    Some(n) => {
                        let top = stack.pop();
                        match top {
                            None => {
                                return Err(TuiError::SubscriptWithoutPreceding);
                            },
                            Some(ComponentType::Element(comp)) => {
                                stack.push(
                                    ComponentType::Element(
                                        Component { element: comp.element, subscript: n },
                                    ),
                                );
                                proof {
                                    let st2 = asm_step(entries, st, tviews[i as int])->Ok_0;
                                    assert(ctypes_vv(stack@) =~= st2.stack);
                                    assert(tokens_view(out@) =~= st2.toks);
                                }
                            },
                            Some(ComponentType::Multiple(mut members, mult)) => {
                                if !paren {
                                    stack.push(ComponentType::Multiple(members, n));
                                    proof {
                                        let st2 = asm_step(entries, st, tviews[i as int])->Ok_0;
                                        assert(ctypes_vv(stack@) =~= st2.stack);
                                        assert(tokens_view(out@) =~= st2.toks);
                                    }
                                } else {
                                    if members.len() == 0 {
                                        return Err(TuiError::SubscriptWithoutPreceding);
                                    }
                                    let li = members.len() - 1;
                                    let elem = members[li].element;
                                    members.set(li, Component { element: elem, subscript: n });
                                    stack.push(ComponentType::Multiple(members, mult));
                                    proof {
                                        let st2 = asm_step(entries, st, tviews[i as int])->Ok_0;
                                        assert(ctypes_vv(stack@) =~= st2.stack);
                                        assert(tokens_view(out@) =~= st2.toks);
                                    }
                                }
                            },
                        }
                    },
                }
            },
            TUIToken::Coefficient(s) => {
                match parse_number(s) {
                    None => {
                        return Err(TuiError::BadNumber);
                    },
                    Some(n) => {
                        flush_stack(&mut out, &mut stack);
                        out.push(Token::Coefficient(n));
                        proof {
                            let st2 = asm_step(entries, st, tviews[i as int])->Ok_0;
                            assert(ctypes_vv(stack@) =~= st2.stack);
                            assert(tokens_view(out@) =~= st2.toks);
                        }
                    },
                }
            },
            TUIToken::Equals => {
                flush_stack(&mut out, &mut stack);
                out.push(Token::Arrow);
                proof {
                    let st2 = asm_step(entries, st, tviews[i as int])->Ok_0;
                    assert(ctypes_vv(stack@) =~= st2.stack);
                    assert(tokens_view(out@) =~= st2.toks);
                }
            },
            TUIToken::Plus => {
                flush_stack(&mut out, &mut stack);
                out.push(Token::Plus);
                proof {
                    let st2 = asm_step(entries, st, tviews[i as int])->Ok_0;
                    assert(ctypes_vv(stack@) =~= st2.stack);
                    assert(tokens_view(out@) =~= st2.toks);
                }
            },
            TUIToken::Whitespace(w) => {
                flush_stack(&mut out, &mut stack);
                proof {
                    let st2 = asm_step(entries, st, tviews[i as int])->Ok_0;
                    assert(ctypes_vv(stack@) =~= st2.stack);
                    assert(tokens_view(out@) =~= st2.toks);
                }
            },
        }
        i = i + 1;
    }
    flush_stack(&mut out, &mut stack);
    proof {
        let fin = asm_run(entries, asm_init(), tviews, 0)->Ok_0;
        assert(tokens_view(out@) =~= asm_flush(fin).toks);
    }
    Ok(out)
}

} // verus!
