//! The equation parser: consumes a flat token stream and builds an
//! `Equation`, validating the equation shape along the way.

use vstd::prelude::*;

use crate::equations::{
    constituent_complete, ctype_wf, Component, ComponentType, ConstituentV, CtypeV, Equation,
    EquationConstituent, EquationError, EquationV,
};

verus! {

/// One lexical token of an equation. The lexer has already resolved
/// element-symbol boundaries, subscripts and grouping.
#[derive(Debug)]
pub enum Token {
    Coefficient(usize),
    Component(ComponentType),
    Plus,
    Arrow,
}

/// The mathematical shape of a token.
pub enum TokenV {
    Coefficient(usize),
    Component(CtypeV),
    Plus,
    Arrow,
}

impl View for Token {
    type V = TokenV;

    open spec fn view(&self) -> TokenV {
        match self {
            Token::Coefficient(c) => TokenV::Coefficient(*c),
            Token::Component(ct) => TokenV::Component(ct@),
            Token::Plus => TokenV::Plus,
            Token::Arrow => TokenV::Arrow,
        }
    }
}

impl Clone for Token {
    fn clone(&self) -> (res: Self)
        ensures
            res@ == self@,
    {
        match self {
            Token::Coefficient(c) => Token::Coefficient(*c),
            Token::Component(ct) => Token::Component(ct.clone()),
            Token::Plus => Token::Plus,
            Token::Arrow => Token::Arrow,
        }
    }
}

pub open spec fn tokens_view(s: Seq<Token>) -> Seq<TokenV> {
    Seq::new(s.len(), |i: int| s[i]@)
}

/// A well-formed token: coefficients are positive and component payloads
/// satisfy the formula invariants.
pub open spec fn token_wf(t: TokenV) -> bool {
    match t {
        TokenV::Coefficient(c) => c >= 1,
        TokenV::Component(ct) => ctype_wf(ct),
        TokenV::Plus => true,
        TokenV::Arrow => true,
    }
}

pub open spec fn tokens_wf(s: Seq<TokenV>) -> bool {
    forall|i: int| 0 <= i < s.len() ==> token_wf(#[trigger] s[i])
}

/// The number of consecutive component tokens starting at `c`.
pub open spec fn run_len(toks: Seq<TokenV>, c: int) -> nat
    decreases toks.len() - c,
{
    if c < 0 || c >= toks.len() {
        0
    } else if !(toks[c] is Component) {
        0
    } else {
        1 + run_len(toks, c + 1)
    }
}

proof fn lemma_run_len_bound(toks: Seq<TokenV>, c: int)
    requires
        0 <= c <= toks.len(),
    ensures
        c + run_len(toks, c) <= toks.len(),
    decreases toks.len() - c,
{
    if c < toks.len() && toks[c] is Component {
        lemma_run_len_bound(toks, c + 1);
    }
}

proof fn lemma_run_len_exact(toks: Seq<TokenV>, c: int, j: int)
    requires
        0 <= c <= j <= toks.len(),
        forall|p: int| c <= p < j ==> (#[trigger] toks[p]) is Component,
        j == toks.len() || !(toks[j] is Component),
    ensures
        run_len(toks, c) == j - c,
    decreases j - c,
{
    if c < j {
        lemma_run_len_exact(toks, c + 1, j);
    }
}

/// Whether a coefficient token opens the constituent at `i`.
pub open spec fn has_coef(toks: Seq<TokenV>, i: int) -> bool {
    0 <= i < toks.len() && toks[i] is Coefficient
}

/// Where the component run of the constituent at `i` starts.
pub open spec fn cstart(toks: Seq<TokenV>, i: int) -> int {
    if has_coef(toks, i) {
        i + 1
    } else {
        i
    }
}

/// The coefficient of the constituent at `i`; 1 when none is written.
pub open spec fn con_coef(toks: Seq<TokenV>, i: int) -> usize {
    if has_coef(toks, i) {
        match toks[i] {
            TokenV::Coefficient(c) => c,
            _ => 1,
        }
    } else {
        1
    }
}

/// Whether a full constituent (optional coefficient, then at least one
/// component) stands at `i`.
pub open spec fn con_ok(toks: Seq<TokenV>, i: int) -> bool {
    0 <= i < toks.len() && run_len(toks, cstart(toks, i)) >= 1
}

/// The error reported when no constituent stands at `i`.
pub open spec fn con_err(toks: Seq<TokenV>, i: int) -> EquationError {
    if i >= toks.len() || cstart(toks, i) >= toks.len() {
        EquationError::UnexpectedEndOfInput
    } else {
        EquationError::UnexpectedToken
    }
}

pub open spec fn tok_payload(t: TokenV) -> CtypeV {
    match t {
        TokenV::Component(ct) => ct,
        _ => CtypeV::Element(Component { element: 1, subscript: 1 }),
    }
}

/// The constituent read at `i`, meaningful when `con_ok` holds.
pub open spec fn con_val(toks: Seq<TokenV>, i: int) -> ConstituentV {
    ConstituentV {
        coefficient: con_coef(toks, i),
        components: Seq::new(
            run_len(toks, cstart(toks, i)),
            |p: int| tok_payload(toks[cstart(toks, i) + p]),
        ),
    }
}

/// The index just past the constituent read at `i`.
pub open spec fn con_end(toks: Seq<TokenV>, i: int) -> int {
    cstart(toks, i) + run_len(toks, cstart(toks, i))
}

/// The rest of the grammar after the first constituent: separators each
/// followed by one constituent, with at most one arrow.
pub open spec fn spec_parse_loop(
    toks: Seq<TokenV>,
    i: int,
    targeting: bool,
    reac: Seq<ConstituentV>,
    prod: Seq<ConstituentV>,
) -> Result<EquationV, EquationError>
    decreases toks.len() - i,
        via spec_parse_loop_dec
{
    if i < 0 || i >= toks.len() {
        Ok(EquationV { reactants: reac, products: prod })
    } else {
        match toks[i] {
            TokenV::Plus => {
                if con_ok(toks, i + 1) {
                    if targeting {
                        spec_parse_loop(
                            toks,
                            con_end(toks, i + 1),
                            targeting,
                            reac,
                            prod.push(con_val(toks, i + 1)),
                        )
                    } else {
                        spec_parse_loop(
                            toks,
                            con_end(toks, i + 1),
                            targeting,
                            reac.push(con_val(toks, i + 1)),
                            prod,
                        )
                    }
                } else {
                    Err(con_err(toks, i + 1))
                }
            },
            TokenV::Arrow => {
                if targeting {
                    Err(EquationError::DuplicateArrow)
                } else if con_ok(toks, i + 1) {
                    spec_parse_loop(
                        toks,
                        con_end(toks, i + 1),
                        true,
                        reac,
                        prod.push(con_val(toks, i + 1)),
                    )
                } else {
                    Err(con_err(toks, i + 1))
                }
            },
            _ => Err(EquationError::UnexpectedToken),
        }
    }
}

#[via_fn]
proof fn spec_parse_loop_dec(
    toks: Seq<TokenV>,
    i: int,
    targeting: bool,
    reac: Seq<ConstituentV>,
    prod: Seq<ConstituentV>,
) {
    if 0 <= i < toks.len() && con_ok(toks, i + 1) {
        lemma_run_len_bound(toks, cstart(toks, i + 1));
    }
}

/// What parsing a whole token stream yields.
pub open spec fn spec_parse_equation(toks: Seq<TokenV>) -> Result<EquationV, EquationError> {
    if con_ok(toks, 0) {
        spec_parse_loop(
            toks,
            con_end(toks, 0),
            false,
            seq![con_val(toks, 0)],
            Seq::<ConstituentV>::empty(),
        )
    } else {
        Err(con_err(toks, 0))
    }
}

fn tok_is_component(t: &Token) -> (r: bool)
    ensures
        r == (t@ is Component),
{
    matches!(t, Token::Component(_))
}

/// Parses one constituent of an equation, starting at `start`.
///
/// Given an equation like `H2 + O2 -> H2O`, the constituents are `H2`,
/// `O2` and `H2O`. Returns the constituent and the index just past it.
pub fn parse_constituent(tokens: &Vec<Token>, start: usize) -> (r: Result<
    (EquationConstituent, usize),
    EquationError,
>)
    ensures
        con_ok(tokens_view(tokens@), start as int) ==> (r matches Ok(p) && p.0@ == con_val(
            tokens_view(tokens@),
            start as int,
        ) && p.1 == con_end(tokens_view(tokens@), start as int) && start < p.1 <= tokens@.len()),
        !con_ok(tokens_view(tokens@), start as int) ==> r == Err::<
            (EquationConstituent, usize),
            EquationError,
        >(con_err(tokens_view(tokens@), start as int)),
        tokens_wf(tokens_view(tokens@)) ==> (r matches Ok(p) ==> constituent_complete(p.0@)),
{
    let ghost toks = tokens_view(tokens@);
    let n = tokens.len();
    if start >= n {
        return Err(EquationError::UnexpectedEndOfInput);
    }
    let coefficient: usize;
    let idx: usize;
    match &tokens[start] {
        Token::Coefficient(c) => {
            coefficient = *c;
            idx = start + 1;
        },
        _ => {
            coefficient = 1;
            idx = start;
        },
    }
    proof {
        assert(idx as int == cstart(toks, start as int));
        assert(coefficient == con_coef(toks, start as int));
    }
    let mut comps: Vec<ComponentType> = Vec::new();
    let mut j = idx;
    while j < n && tok_is_component(&tokens[j])
        invariant
            idx <= j <= n,
            n == tokens@.len(),
            toks == tokens_view(tokens@),
            comps@.len() == j - idx,
            forall|p: int| 0 <= p < comps@.len() ==> comps@[p]@ == tok_payload(
                toks[idx + p],
            ),
            forall|p: int| idx <= p < j ==> (#[trigger] toks[p]) is Component,
        decreases n - j,
    {
        match &tokens[j] {
            Token::Component(ct) => {
                comps.push(ct.clone());
            },
            _ => {
                proof {
                    assert(false);
                }
            },
        }
        j = j + 1;
    }
    proof {
        lemma_run_len_exact(toks, idx as int, j as int);
    }
    if comps.len() == 0 {
        if idx >= n {
            return Err(EquationError::UnexpectedEndOfInput);
        }
        return Err(EquationError::UnexpectedToken);
    }
    let res = EquationConstituent { coefficient, components: comps };
    proof {
        assert(res@.components =~= con_val(toks, start as int).components);
        if tokens_wf(toks) {
            assert forall|p: int| 0 <= p < res@.components.len() implies ctype_wf(
                #[trigger] res@.components[p],
            ) by {
                assert(toks[idx + p] is Component);
                assert(token_wf(toks[idx + p]));
            }
            if has_coef(toks, start as int) {
                assert(token_wf(toks[start as int]));
            }
        }
    }
    Ok((res, j))
}

/// Parses an entire chemical equation from its token stream.
pub fn parse_equation(tokens: Vec<Token>) -> (r: Result<Equation, EquationError>)
    ensures
        spec_parse_equation(tokens_view(tokens@)) matches Ok(ev) ==> (r matches Ok(eq) && eq@
            == ev),
        spec_parse_equation(tokens_view(tokens@)) matches Err(e) ==> r == Err::<
            Equation,
            EquationError,
        >(e),
        tokens_wf(tokens_view(tokens@)) ==> (r matches Ok(eq) ==> (forall|k: int|
            0 <= k < eq@.reactants.len() ==> constituent_complete(#[trigger] eq@.reactants[k]))
            && (forall|k: int|
            0 <= k < eq@.products.len() ==> constituent_complete(#[trigger] eq@.products[k]))
            && eq@.reactants.len() >= 1),
{
    let ghost toks = tokens_view(tokens@);
    let first = parse_constituent(&tokens, 0);
    let mut reactants: Vec<EquationConstituent> = Vec::new();
    let mut products: Vec<EquationConstituent> = Vec::new();
    match first {
        Err(e) => {
            return Err(e);
        },
        Ok((con0, next)) => {
            reactants.push(con0);
            let mut i = next;
            let mut targeting = false;
            proof {
                assert(constituents_vv(reactants@) =~= seq![con_val(toks, 0)]);
                assert(constituents_vv(products@) =~= Seq::<ConstituentV>::empty());
            }
            while i < tokens.len()
                invariant
                    toks == tokens_view(tokens@),
                    i <= tokens@.len(),
                    spec_parse_equation(toks) == spec_parse_loop(
                        toks,
                        i as int,
                        targeting,
                        constituents_vv(reactants@),
                        constituents_vv(products@),
                    ),
                    tokens_wf(toks) ==> (forall|k: int|
                        0 <= k < reactants@.len() ==> constituent_complete(
                            #[trigger] reactants@[k]@,
                        )) && (forall|k: int|
                        0 <= k < products@.len() ==> constituent_complete(
                            #[trigger] products@[k]@,
                        )),
                    reactants@.len() >= 1,
                decreases tokens@.len() - i,
            {
                let is_arrow: bool;
                match &tokens[i] {
                    Token::Plus => {
                        is_arrow = false;
                    },
                    Token::Arrow => {
                        if targeting {
                            return Err(EquationError::DuplicateArrow);
                        }
                        is_arrow = true;
                    },
                    _ => {
                        return Err(EquationError::UnexpectedToken);
                    },
                }
                match parse_constituent(&tokens, i + 1) {
                    Err(e) => {
                        return Err(e);
                    },
                    Ok((con, next2)) => {
                        let ghost old_reac = constituents_vv(reactants@);
                        let ghost old_prod = constituents_vv(products@);
                        if is_arrow || targeting {
                            products.push(con);
                            proof {
                                assert(constituents_vv(products@) =~= old_prod.push(
                                    con_val(toks, i + 1),
                                ));
                                assert(constituents_vv(reactants@) =~= old_reac);
                            }
                        } else {
                            reactants.push(con);
                            proof {
                                assert(constituents_vv(reactants@) =~= old_reac.push(
                                    con_val(toks, i + 1),
                                ));
                                assert(constituents_vv(products@) =~= old_prod);
                            }
                        }
                        if is_arrow {
                            targeting = true;
                        }
                        i = next2;
                    },
                }
            }
            let res = Equation { reactants, products };
            proof {
                assert(res@.reactants =~= constituents_vv(res.reactants@));
                assert(res@.products =~= constituents_vv(res.products@));
            }
            Ok(res)
        },
    }
}

/// The constituent views of a vector of constituents.
pub open spec fn constituents_vv(s: Seq<EquationConstituent>) -> Seq<ConstituentV> {
    Seq::new(s.len(), |i: int| s[i]@)
}

fn ctype_ok(c: &ComponentType) -> (r: bool)
    ensures
        r == ctype_wf(c@),
{
    match c {
        ComponentType::Element(comp) => comp.element >= 1 && comp.subscript >= 1,
        ComponentType::Multiple(v, m) => {
            if v.len() == 0 || *m == 0 {
                false
            } else {
                let mut i: usize = 0;
                let mut good = true;
                while i < v.len()
                    invariant
                        i <= v@.len(),
                        good == (forall|j: int|
                            0 <= j < i ==> crate::equations::component_wf(#[trigger] v@[j])),
                    decreases v@.len() - i,
                {
                    let cwf = v[i].element >= 1 && v[i].subscript >= 1;
                    good = good && cwf;
                    i = i + 1;
                }
                good
            }
        },
    }
}

/// Checks at run time that every token satisfies the invariants the
/// parser requires: positive coefficients and well-formed components.
pub fn tokens_ok(tokens: &Vec<Token>) -> (r: bool)
    ensures
        r == tokens_wf(tokens_view(tokens@)),
{
    let ghost tv = tokens_view(tokens@);
    let mut i: usize = 0;
    while i < tokens.len()
        invariant
            i <= tokens@.len(),
            tv == tokens_view(tokens@),
            tv.len() == tokens@.len(),
            forall|j: int| 0 <= j < tv.len() ==> tv[j] == tokens@[j]@,
            forall|j: int| 0 <= j < i ==> token_wf(#[trigger] tv[j]),
        decreases tokens@.len() - i,
    {
        let good = match &tokens[i] {
            Token::Coefficient(c) => *c >= 1,
            Token::Component(ct) => ctype_ok(ct),
            Token::Plus => true,
            Token::Arrow => true,
        };
        if !good {
            proof {
                assert(!token_wf(tv[i as int]));
                assert(!tokens_wf(tv)) by {
                    if tokens_wf(tv) {
                        assert(token_wf(tv[i as int]));
                    }
                }
            }
            return false;
        }
        i = i + 1;
    }
    true
}

/// The canonical token sequence of one constituent: its coefficient, then
/// one component token per component.
pub open spec fn constituent_tokens(c: ConstituentV) -> Seq<TokenV> {
    seq![TokenV::Coefficient(c.coefficient)] + Seq::new(
        c.components.len(),
        |p: int| TokenV::Component(c.components[p]),
    )
}

/// The token segments of the constituents after the first on a side: a
/// plus, then the constituent, for each.
pub open spec fn plus_tokens(s: Seq<ConstituentV>) -> Seq<TokenV>
    decreases s.len(),
{
    if s.len() == 0 {
        Seq::empty()
    } else {
        seq![TokenV::Plus] + constituent_tokens(s[0]) + plus_tokens(s.drop_first())
    }
}

/// The canonical token sequence of a whole equation, coefficients written
/// explicitly.
pub open spec fn equation_tokens(eq: EquationV) -> Seq<TokenV> {
    constituent_tokens(eq.reactants[0]) + plus_tokens(eq.reactants.drop_first()) + (
    if eq.products.len() > 0 {
        seq![TokenV::Arrow] + constituent_tokens(eq.products[0]) + plus_tokens(
            eq.products.drop_first(),
        )
    } else {
        Seq::empty()
    })
}

/// A constituent's canonical tokens parse back to that constituent when a
/// separator or the end of the stream follows them.
proof fn lemma_con_at(toks: Seq<TokenV>, i: int, c: ConstituentV)
    requires
        constituent_complete(c),
        0 <= i,
        i + 1 + c.components.len() <= toks.len(),
        toks[i] == TokenV::Coefficient(c.coefficient),
        forall|p: int| 0 <= p < c.components.len() ==> toks[i + 1 + p] == TokenV::Component(
            #[trigger] c.components[p],
        ),
        i + 1 + c.components.len() == toks.len() || !(toks[i + 1 + c.components.len()]
            is Component),
    ensures
        con_ok(toks, i),
        con_val(toks, i) == c,
        con_end(toks, i) == i + 1 + c.components.len(),
{
    let n = c.components.len() as int;
    assert(has_coef(toks, i));
    assert(cstart(toks, i) == i + 1);
    assert forall|p: int| i + 1 <= p < i + 1 + n implies (#[trigger] toks[p]) is Component by {
        assert(toks[p] == TokenV::Component(c.components[p - i - 1]));
    }
    lemma_run_len_exact(toks, i + 1, i + 1 + n);
    assert(con_val(toks, i).components =~= c.components);
}

/// The remaining plus-separated constituents of a side parse onto the end
/// of the side being accumulated.
proof fn lemma_plus_only(
    toks: Seq<TokenV>,
    i: int,
    targeting: bool,
    reac: Seq<ConstituentV>,
    prod: Seq<ConstituentV>,
    rest: Seq<ConstituentV>,
)
    requires
        0 <= i <= toks.len(),
        toks.skip(i) =~= plus_tokens(rest),
        forall|k: int| 0 <= k < rest.len() ==> constituent_complete(#[trigger] rest[k]),
    ensures
        spec_parse_loop(toks, i, targeting, reac, prod) == (if targeting {
            Ok::<EquationV, EquationError>(EquationV { reactants: reac, products: prod + rest })
        } else {
            Ok::<EquationV, EquationError>(EquationV { reactants: reac + rest, products: prod })
        }),
    decreases rest.len(),
{
    if rest.len() == 0 {
        assert(toks.skip(i).len() == 0);
        assert(i >= toks.len());
        assert(prod + rest =~= prod);
        assert(reac + rest =~= reac);
    } else {
        let c = rest[0];
        let n = c.components.len() as int;
        let seg = seq![TokenV::Plus] + constituent_tokens(c);
        assert(toks.skip(i).len() == plus_tokens(rest).len());
        assert(i < toks.len());
        assert(toks[i] == toks.skip(i)[0]);
        assert(plus_tokens(rest)[0] == TokenV::Plus);
        assert(toks[i] is Plus);
        assert(seg.len() == 2 + n);
        // the constituent's tokens stand at i + 1
        assert(toks[i + 1] == TokenV::Coefficient(c.coefficient)) by {
            assert(toks[i + 1] == toks.skip(i)[1]);
            assert(plus_tokens(rest)[1] == seg[1]);
            assert(seg[1] == constituent_tokens(c)[0]);
        }
        assert forall|p: int| 0 <= p < n implies toks[i + 2 + p] == TokenV::Component(
            #[trigger] c.components[p],
        ) by {
            assert(toks[i + 2 + p] == toks.skip(i)[2 + p]);
            assert(plus_tokens(rest)[2 + p] == seg[2 + p]);
            assert(seg[2 + p] == constituent_tokens(c)[1 + p]);
            assert(constituent_tokens(c)[1 + p] == TokenV::Component(c.components[p]));
        }
        let after = i + 2 + n;
        assert(after <= toks.len());
        if after == toks.len() {
        } else {
            assert(toks[after] == toks.skip(i)[2 + n]);
            assert(plus_tokens(rest)[2 + n] == plus_tokens(rest.drop_first())[0]);
            assert(rest.drop_first().len() > 0) by {
                if rest.drop_first().len() == 0 {
                    assert(plus_tokens(rest).len() == seg.len());
                    assert(false);
                }
            }
            assert(plus_tokens(rest.drop_first())[0] == TokenV::Plus);
            assert(!(toks[after] is Component));
        }
        lemma_con_at(toks, i + 1, c);
        assert(toks.skip(after) =~= plus_tokens(rest.drop_first())) by {
            assert forall|p: int|
                0 <= p < toks.skip(after).len() implies toks.skip(after)[p] == plus_tokens(
                rest.drop_first(),
            )[p] by {
                assert(toks.skip(after)[p] == toks[after + p]);
                assert(toks[after + p] == toks.skip(i)[2 + n + p]);
                assert(plus_tokens(rest)[2 + n + p] == plus_tokens(rest.drop_first())[p]);
            }
        }
        assert(forall|k: int|
            0 <= k < rest.drop_first().len() ==> constituent_complete(
                #[trigger] rest.drop_first()[k],
            ));
        if targeting {
            lemma_plus_only(toks, after, targeting, reac, prod.push(c), rest.drop_first());
            assert(prod.push(c) + rest.drop_first() =~= prod + rest);
        } else {
            lemma_plus_only(toks, after, targeting, reac.push(c), prod, rest.drop_first());
            assert(reac.push(c) + rest.drop_first() =~= reac + rest);
        }
    }
}

/// The parser round trip at the token level: the canonical token sequence
/// of a well-formed equation parses back to exactly that equation, with
/// the same composition and the same coefficients.
pub proof fn lemma_parse_round_trip(eq: EquationV)
    requires
        eq.reactants.len() >= 1,
        forall|k: int| 0 <= k < eq.reactants.len() ==> constituent_complete(
            #[trigger] eq.reactants[k],
        ),
        forall|k: int| 0 <= k < eq.products.len() ==> constituent_complete(
            #[trigger] eq.products[k],
        ),
    ensures
        spec_parse_equation(equation_tokens(eq)) == Ok::<EquationV, EquationError>(eq),
{
    let toks = equation_tokens(eq);
    let c0 = eq.reactants[0];
    let n0 = c0.components.len() as int;
    let head = constituent_tokens(c0);
    let mid = plus_tokens(eq.reactants.drop_first());
    let tail: Seq<TokenV> = if eq.products.len() > 0 {
        seq![TokenV::Arrow] + constituent_tokens(eq.products[0]) + plus_tokens(
            eq.products.drop_first(),
        )
    } else {
        Seq::empty()
    };
    assert(toks =~= head + (mid + tail));
    assert(toks[0] == TokenV::Coefficient(c0.coefficient)) by {
        assert(head[0] == TokenV::Coefficient(c0.coefficient));
    }
    assert forall|p: int| 0 <= p < n0 implies toks[1 + p] == TokenV::Component(
        #[trigger] c0.components[p],
    ) by {
        assert(toks[1 + p] == head[1 + p]);
        assert(head[1 + p] == TokenV::Component(c0.components[p]));
    }
    let after0 = 1 + n0;
    assert(after0 <= toks.len());
    if after0 < toks.len() {
        assert(toks[after0] == (mid + tail)[0]);
        if mid.len() > 0 {
            assert(eq.reactants.drop_first().len() > 0);
            assert(mid[0] == TokenV::Plus);
            assert(!(toks[after0] is Component));
        } else {
            assert(tail.len() > 0);
            assert(tail[0] == TokenV::Arrow);
            assert(!(toks[after0] is Component));
        }
    }
    lemma_con_at(toks, 0, c0);
    // the rest of the reactants
    assert(toks.skip(after0) =~= mid + tail);
    lemma_loop_after_first(toks, after0, eq, seq![c0]);
    assert(seq![c0] + eq.reactants.drop_first() =~= eq.reactants);
}

/// After the first constituent, the remaining reactants and then the
/// product side parse onto the equation being accumulated.
proof fn lemma_loop_after_first(toks: Seq<TokenV>, i: int, eq: EquationV, reac0: Seq<ConstituentV>)
    requires
        0 <= i <= toks.len(),
        eq.reactants.len() >= 1,
        forall|k: int| 0 <= k < eq.reactants.len() ==> constituent_complete(
            #[trigger] eq.reactants[k],
        ),
        forall|k: int| 0 <= k < eq.products.len() ==> constituent_complete(
            #[trigger] eq.products[k],
        ),
        toks.skip(i) =~= plus_tokens(eq.reactants.drop_first()) + (if eq.products.len() > 0 {
            seq![TokenV::Arrow] + constituent_tokens(eq.products[0]) + plus_tokens(
                eq.products.drop_first(),
            )
        } else {
            Seq::<TokenV>::empty()
        }),
    ensures
        spec_parse_loop(toks, i, false, reac0, Seq::empty()) == Ok::<EquationV, EquationError>(
            EquationV {
                reactants: reac0 + eq.reactants.drop_first(),
                products: eq.products,
            },
        ),
    decreases eq.reactants.len(),
{
    let mid = plus_tokens(eq.reactants.drop_first());
    let tail: Seq<TokenV> = if eq.products.len() > 0 {
        seq![TokenV::Arrow] + constituent_tokens(eq.products[0]) + plus_tokens(
            eq.products.drop_first(),
        )
    } else {
        Seq::empty()
    };
    if eq.reactants.len() == 1 {
        assert(eq.reactants.drop_first().len() == 0);
        assert(mid.len() == 0);
        assert(toks.skip(i) =~= tail);
        if eq.products.len() == 0 {
            assert(i >= toks.len());
            assert(reac0 + eq.reactants.drop_first() =~= reac0);
            assert(Seq::<ConstituentV>::empty() + eq.products =~= eq.products);
            assert(spec_parse_loop(toks, i, false, reac0, Seq::empty()) == Ok::<
                EquationV,
                EquationError,
            >(EquationV { reactants: reac0, products: Seq::empty() }));
            assert(eq.products =~= Seq::<ConstituentV>::empty());
        } else {
            let p0 = eq.products[0];
            let np = p0.components.len() as int;
            assert(tail.len() == 1 + (1 + np) + plus_tokens(eq.products.drop_first()).len()) by {
                assert(constituent_tokens(p0).len() == 1 + np);
            }
            assert(toks.skip(i).len() == tail.len());
            assert(i < toks.len());
            assert(toks[i] == toks.skip(i)[0]);
            assert(tail[0] == TokenV::Arrow);
            assert(toks[i + 1] == TokenV::Coefficient(p0.coefficient)) by {
                assert(toks[i + 1] == toks.skip(i)[1]);
                assert(tail[1] == constituent_tokens(p0)[0]);
            }
            assert forall|p: int| 0 <= p < np implies toks[i + 2 + p] == TokenV::Component(
                #[trigger] p0.components[p],
            ) by {
                assert(toks[i + 2 + p] == toks.skip(i)[2 + p]);
                assert(tail[2 + p] == constituent_tokens(p0)[1 + p]);
                assert(constituent_tokens(p0)[1 + p] == TokenV::Component(p0.components[p]));
            }
            let after = i + 2 + np;
            assert(after <= toks.len());
            if after < toks.len() {
                assert(toks[after] == toks.skip(i)[2 + np]);
                assert(tail[2 + np] == plus_tokens(eq.products.drop_first())[0]);
                assert(eq.products.drop_first().len() > 0) by {
                    if eq.products.drop_first().len() == 0 {
                        assert(tail.len() == 2 + np);
                        assert(false);
                    }
                }
                assert(plus_tokens(eq.products.drop_first())[0] == TokenV::Plus);
                assert(!(toks[after] is Component));
            }
            lemma_con_at(toks, i + 1, p0);
            assert(toks.skip(after) =~= plus_tokens(eq.products.drop_first())) by {
                assert forall|p: int|
                    0 <= p < toks.skip(after).len() implies toks.skip(after)[p] == plus_tokens(
                    eq.products.drop_first(),
                )[p] by {
                    assert(toks.skip(after)[p] == toks[after + p]);
                    assert(toks[after + p] == toks.skip(i)[2 + np + p]);
                    assert(tail[2 + np + p] == plus_tokens(eq.products.drop_first())[p]);
                }
            }
            lemma_plus_only(
                toks,
                after,
                true,
                reac0,
                Seq::<ConstituentV>::empty().push(p0),
                eq.products.drop_first(),
            );
            assert(Seq::<ConstituentV>::empty().push(p0) + eq.products.drop_first()
                =~= eq.products);
            assert(reac0 + eq.reactants.drop_first() =~= reac0);
        }
    } else {
        // consume one more reactant, then recurse on the shorter equation
        let rest = eq.reactants.drop_first();
        let c = rest[0];
        let n = c.components.len() as int;
        let seg = seq![TokenV::Plus] + constituent_tokens(c);
        assert(mid =~= seg + plus_tokens(rest.drop_first()));
        assert(seg.len() == 2 + n) by {
            assert(constituent_tokens(c).len() == 1 + n);
        }
        assert(mid.len() >= 2 + n);
        assert(toks.skip(i).len() == mid.len() + tail.len());
        assert(i < toks.len());
        assert(toks[i] == toks.skip(i)[0]);
        assert(toks.skip(i)[0] == (mid + tail)[0]);
        assert((mid + tail)[0] == mid[0]);
        assert(mid[0] == TokenV::Plus);
        assert(toks[i + 1] == TokenV::Coefficient(c.coefficient)) by {
            assert(toks[i + 1] == toks.skip(i)[1]);
            assert(toks.skip(i)[1] == (mid + tail)[1]);
            assert((mid + tail)[1] == mid[1]);
            assert(mid[1] == seg[1]);
            assert(seg[1] == constituent_tokens(c)[0]);
        }
        assert forall|p: int| 0 <= p < n implies toks[i + 2 + p] == TokenV::Component(
            #[trigger] c.components[p],
        ) by {
            assert(toks[i + 2 + p] == toks.skip(i)[2 + p]);
            assert((mid + tail)[2 + p] == mid[2 + p]);
            assert(mid[2 + p] == seg[2 + p]);
            assert(seg[2 + p] == constituent_tokens(c)[1 + p]);
            assert(constituent_tokens(c)[1 + p] == TokenV::Component(c.components[p]));
        }
        let after = i + 2 + n;
        assert(after <= toks.len());
        if after < toks.len() {
            assert(toks[after] == toks.skip(i)[2 + n]);
            if 2 + n < mid.len() {
                assert((mid + tail)[2 + n] == mid[2 + n]);
                assert(mid[2 + n] == plus_tokens(rest.drop_first())[0]);
                assert(rest.drop_first().len() > 0) by {
                    if rest.drop_first().len() == 0 {
                        assert(mid.len() == 2 + n);
                        assert(false);
                    }
                }
                assert(plus_tokens(rest.drop_first())[0] == TokenV::Plus);
                assert(!(toks[after] is Component));
            } else {
                assert(mid.len() == 2 + n);
                assert((mid + tail)[2 + n] == tail[0]);
                assert(tail.len() > 0);
                assert(tail[0] == TokenV::Arrow);
                assert(!(toks[after] is Component));
            }
        }
        lemma_con_at(toks, i + 1, c);
        let eq2 = EquationV { reactants: rest, products: eq.products };
        assert(eq2.reactants.drop_first() =~= rest.drop_first());
        assert(toks.skip(after) =~= plus_tokens(eq2.reactants.drop_first()) + tail) by {
            assert forall|p: int|
                0 <= p < toks.skip(after).len() implies toks.skip(after)[p] == (plus_tokens(
                rest.drop_first(),
            ) + tail)[p] by {
                assert(toks.skip(after)[p] == toks[after + p]);
                assert(toks[after + p] == toks.skip(i)[2 + n + p]);
                assert((mid + tail)[2 + n + p] == (plus_tokens(rest.drop_first()) + tail)[p]) by {
                    if 2 + n + p < mid.len() {
                        assert((mid + tail)[2 + n + p] == mid[2 + n + p]);
                        assert(mid[2 + n + p] == plus_tokens(rest.drop_first())[p]);
                    } else {
                        assert((mid + tail)[2 + n + p] == tail[2 + n + p - mid.len()]);
                    }
                }
            }
        }
        lemma_loop_after_first(toks, after, eq2, reac0.push(c));
        assert(reac0.push(c) + rest.drop_first() =~= reac0 + rest);
    }
}

proof fn lemma_tokens_view_push(s: Seq<Token>, t: Token)
    ensures
        tokens_view(s.push(t)) == tokens_view(s).push(t@),
{
    assert(tokens_view(s.push(t)) =~= tokens_view(s).push(t@));
}

/// Builds the canonical token sequence of an equation: each constituent's
/// coefficient written explicitly, sides separated by the arrow.
pub fn equation_tokens_of(eq: &Equation) -> (r: Vec<Token>)
    requires
        eq@.reactants.len() >= 1,
    ensures
        tokens_view(r@) == equation_tokens(eq@),
{
    let mut out: Vec<Token> = Vec::new();
    push_constituent_tokens(&mut out, &eq.reactants[0]);
    proof {
        assert(tokens_view(out@) =~= constituent_tokens(eq@.reactants[0]));
    }
    let ghost reac_rest = eq@.reactants.drop_first();
    let mut k: usize = 1;
    while k < eq.reactants.len()
        invariant
            1 <= k <= eq.reactants@.len(),
            eq@.reactants.len() == eq.reactants@.len(),
            forall|j: int| 0 <= j < eq.reactants@.len() ==> eq@.reactants[j] == (
            #[trigger] eq.reactants@[j])@,
            reac_rest == eq@.reactants.drop_first(),
            tokens_view(out@) == constituent_tokens(eq@.reactants[0]) + plus_tokens(
                reac_rest.take(k - 1),
            ),
        decreases eq.reactants@.len() - k,
    {
        let ghost before = tokens_view(out@);
        let ghost prevp = out@;
        out.push(Token::Plus);
        proof {
            lemma_tokens_view_push(prevp, Token::Plus);
        }
        push_constituent_tokens(&mut out, &eq.reactants[k]);
        proof {
            lemma_plus_tokens_take_step(reac_rest, k - 1);
            assert(reac_rest[k - 1] == eq@.reactants[k as int]);
            assert(tokens_view(out@) =~= constituent_tokens(eq@.reactants[0]) + plus_tokens(
                reac_rest.take(k as int),
            ));
        }
        k = k + 1;
    }
    proof {
        assert(reac_rest.take(reac_rest.len() as int) =~= reac_rest);
    }
    if eq.products.len() > 0 {
        let ghost mid = tokens_view(out@);
        let ghost preva = out@;
        out.push(Token::Arrow);
        proof {
            lemma_tokens_view_push(preva, Token::Arrow);
        }
        push_constituent_tokens(&mut out, &eq.products[0]);
        proof {
            assert(plus_tokens(Seq::<ConstituentV>::empty()) == Seq::<TokenV>::empty());
            assert(tokens_view(out@) =~= mid + (seq![TokenV::Arrow] + constituent_tokens(
                eq@.products[0],
            ) + plus_tokens(Seq::<ConstituentV>::empty())));
        }
        let ghost prod_rest = eq@.products.drop_first();
        let mut k2: usize = 1;
        while k2 < eq.products.len()
            invariant
                1 <= k2 <= eq.products@.len(),
                eq@.products.len() == eq.products@.len(),
                forall|j: int| 0 <= j < eq.products@.len() ==> eq@.products[j] == (
                #[trigger] eq.products@[j])@,
                prod_rest == eq@.products.drop_first(),
                mid == constituent_tokens(eq@.reactants[0]) + plus_tokens(
                    eq@.reactants.drop_first(),
                ),
                tokens_view(out@) == mid + (seq![TokenV::Arrow] + constituent_tokens(
                    eq@.products[0],
                ) + plus_tokens(prod_rest.take(k2 - 1))),
            decreases eq.products@.len() - k2,
        {
            let ghost prevq = out@;
            out.push(Token::Plus);
            proof {
                lemma_tokens_view_push(prevq, Token::Plus);
            }
            push_constituent_tokens(&mut out, &eq.products[k2]);
            proof {
                lemma_plus_tokens_take_step(prod_rest, k2 - 1);
                assert(prod_rest[k2 - 1] == eq@.products[k2 as int]);
                assert(tokens_view(out@) =~= mid + (seq![TokenV::Arrow] + constituent_tokens(
                    eq@.products[0],
                ) + plus_tokens(prod_rest.take(k2 as int))));
            }
            k2 = k2 + 1;
        }
        proof {
            assert(prod_rest.take(prod_rest.len() as int) =~= prod_rest);
            assert(tokens_view(out@) =~= equation_tokens(eq@));
        }
    } else {
        proof {
            assert(tokens_view(out@) =~= equation_tokens(eq@));
        }
    }
    out
}

proof fn lemma_plus_tokens_take_step(s: Seq<ConstituentV>, k: int)
    requires
        0 <= k < s.len(),
    ensures
        plus_tokens(s.take(k + 1)) == plus_tokens(s.take(k)) + (seq![TokenV::Plus]
            + constituent_tokens(s[k])),
    decreases k,
{
    if k == 0 {
        assert(s.take(1)[0] == s[0]);
        assert(s.take(1).drop_first() =~= Seq::<ConstituentV>::empty());
        assert(plus_tokens(Seq::<ConstituentV>::empty()) == Seq::<TokenV>::empty());
        assert(plus_tokens(s.take(0)) == Seq::<TokenV>::empty()) by {
            assert(s.take(0) =~= Seq::<ConstituentV>::empty());
        }
        assert(plus_tokens(s.take(1)) =~= plus_tokens(s.take(0)) + (seq![TokenV::Plus]
            + constituent_tokens(s[0])));
    } else {
        assert(s.take(k + 1).drop_first() =~= s.drop_first().take(k));
        assert(s.take(k).drop_first() =~= s.drop_first().take(k - 1));
        lemma_plus_tokens_take_step(s.drop_first(), k - 1);
        assert(s.drop_first()[k - 1] == s[k]);
        assert(s.take(k + 1)[0] == s[0]);
        assert(s.take(k)[0] == s[0]);
        assert(plus_tokens(s.take(k + 1)) =~= plus_tokens(s.take(k)) + (seq![TokenV::Plus]
            + constituent_tokens(s[k])));
    }
}

fn push_constituent_tokens(out: &mut Vec<Token>, c: &EquationConstituent)
    ensures
        tokens_view(final(out)@) == tokens_view(old(out)@) + constituent_tokens(c@),
{
    let ghost before = tokens_view(out@);
    let ghost prev = out@;
    let coef_tok = Token::Coefficient(c.coefficient);
    out.push(coef_tok);
    let ghost cts = c@.components;
    proof {
        lemma_tokens_view_push(prev, coef_tok);
        assert(tokens_view(out@) =~= before + seq![TokenV::Coefficient(c@.coefficient)]);
    }
    let mut i: usize = 0;
    while i < c.components.len()
        invariant
            i <= c.components@.len(),
            cts == c@.components,
            cts.len() == c.components@.len(),
            forall|j: int| 0 <= j < cts.len() ==> cts[j] == c.components@[j]@,
            tokens_view(out@) == before + seq![TokenV::Coefficient(c@.coefficient)] + Seq::new(
                i as nat,
                |p: int| TokenV::Component(cts[p]),
            ),
        decreases c.components@.len() - i,
    {
        let ghost prev2 = out@;
        let comp_tok = Token::Component(c.components[i].clone());
        proof {
            assert(comp_tok@ == TokenV::Component(cts[i as int]));
        }
        out.push(comp_tok);
        proof {
            lemma_tokens_view_push(prev2, comp_tok);
            assert((before + seq![TokenV::Coefficient(c@.coefficient)] + Seq::new(
                i as nat,
                |p: int| TokenV::Component(cts[p]),
            )).push(TokenV::Component(cts[i as int])) =~= before + seq![
                TokenV::Coefficient(c@.coefficient),
            ] + Seq::new((i + 1) as nat, |p: int| TokenV::Component(cts[p])));
        }
        i = i + 1;
    }
    proof {
        assert(Seq::new(cts.len(), |p: int| TokenV::Component(cts[p])) =~= Seq::new(
            c@.components.len(),
            |p: int| TokenV::Component(c@.components[p]),
        ));
        assert(tokens_view(out@) =~= before + constituent_tokens(c@));
    }
}

} // verus!
