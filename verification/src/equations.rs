//! The formula model: components, constituents and equations, together with
//! the derived element-atom counts that the balancing engine works on.

use vstd::prelude::*;

pub mod parse;
pub mod rational;
pub mod solve;
pub mod util;

verus! {

/// The errors the equation pipeline can surface.
#[derive(Debug, PartialEq, Eq, Structural)]
pub enum EquationError {
    /// A token stood where the grammar allows none.
    UnexpectedToken,
    /// A second arrow appeared in one equation.
    DuplicateArrow,
    /// The token stream ended where a constituent was still owed.
    UnexpectedEndOfInput,
    /// An element appears on only one side of the equation, so no
    /// coefficients can balance it.
    UnusedElement,
    /// An atom count or a coefficient left the representable integer range.
    ArithmeticOverflow,
    /// The bounded scalar search ended without an all-integer solution;
    /// carries the bound that was tried.
    NoIntegerSolutionFound(u64),
    /// The linear system yielded no valid balance.
    SingularWithoutSolution,
    /// An element reference has no entry in the symbol table.
    ElementNotFound,
}

/// One atom kind inside a formula: an element (by atomic number) with its
/// subscript.
#[derive(Debug, Clone, Copy)]
pub struct Component {
    pub element: u32,
    pub subscript: usize,
}

pub open spec fn component_wf(c: Component) -> bool {
    &&& c.element >= 1
    &&& c.subscript >= 1
}

/// Atoms of element `e` contributed by one occurrence of `c`.
pub open spec fn component_atoms(c: Component, e: int) -> int {
    if c.element == e {
        c.subscript as int
    } else {
        0
    }
}

/// Atoms of element `e` contributed by a sequence of components.
pub open spec fn components_atoms(s: Seq<Component>, e: int) -> int
    decreases s.len(),
{
    if s.len() == 0 {
        0
    } else {
        components_atoms(s.drop_last(), e) + component_atoms(s.last(), e)
    }
}

/// Either a single element with a subscript, or a parenthesized group of
/// such elements with a group multiplier, as in `(PO4)2`.
#[derive(Debug)]
pub enum ComponentType {
    Element(Component),
    Multiple(Vec<Component>, usize),
}

/// The mathematical shape of a `ComponentType`.
pub enum CtypeV {
    Element(Component),
    Multiple(Seq<Component>, usize),
}

impl View for ComponentType {
    type V = CtypeV;

    open spec fn view(&self) -> CtypeV {
        match self {
            ComponentType::Element(c) => CtypeV::Element(*c),
            ComponentType::Multiple(v, m) => CtypeV::Multiple(v@, *m),
        }
    }
}

impl Clone for ComponentType {
    fn clone(&self) -> (res: Self)
        ensures
            res@ == self@,
    {
        match self {
            ComponentType::Element(c) => ComponentType::Element(*c),
            ComponentType::Multiple(v, m) => {
                let mut v2: Vec<Component> = Vec::new();
                let mut i: usize = 0;
                while i < v.len()
                    invariant
                        i <= v.len(),
                        v2@ == v@.take(i as int),
                    decreases v.len() - i,
                {
                    v2.push(v[i]);
                    proof {
                        assert(v2@ =~= v@.take(i + 1));
                    }
                    i = i + 1;
                }
                proof {
                    assert(v@.take(v@.len() as int) =~= v@);
                }
                ComponentType::Multiple(v2, *m)
            },
        }
    }
}

impl ComponentType {
    /// Whether this component is a parenthesized group.
    pub fn has_multiple(&self) -> (r: bool)
        ensures
            r == (self@ is Multiple),
    {
        matches!(self, ComponentType::Multiple(_, _))
    }
}

pub open spec fn ctype_wf(c: CtypeV) -> bool {
    match c {
        CtypeV::Element(comp) => component_wf(comp),
        CtypeV::Multiple(v, m) => {
            &&& v.len() >= 1
            &&& m >= 1
            &&& forall|i: int| 0 <= i < v.len() ==> component_wf(#[trigger] v[i])
        },
    }
}

/// Atoms of element `e` contributed by one occurrence of the component,
/// with a group's multiplier applied once to each member.
pub open spec fn ctype_atoms(c: CtypeV, e: int) -> int {
    match c {
        CtypeV::Element(comp) => component_atoms(comp, e),
        CtypeV::Multiple(v, m) => components_atoms(v, e) * (m as int),
    }
}

pub open spec fn ctypes_atoms(s: Seq<CtypeV>, e: int) -> int
    decreases s.len(),
{
    if s.len() == 0 {
        0
    } else {
        ctypes_atoms(s.drop_last(), e) + ctype_atoms(s.last(), e)
    }
}

/// One side-member of an equation, e.g. `2H2O`: a coefficient and a list
/// of components.
#[derive(Debug)]
pub struct EquationConstituent {
    pub coefficient: usize,
    pub components: Vec<ComponentType>,
}

/// The mathematical shape of a constituent.
pub struct ConstituentV {
    pub coefficient: usize,
    pub components: Seq<CtypeV>,
}

impl View for EquationConstituent {
    type V = ConstituentV;

    open spec fn view(&self) -> ConstituentV {
        ConstituentV {
            coefficient: self.coefficient,
            components: Seq::new(self.components@.len(), |i: int| self.components@[i]@),
        }
    }
}

impl Clone for EquationConstituent {
    fn clone(&self) -> (res: Self)
        ensures
            res@ == self@,
    {
        let res = EquationConstituent {
            coefficient: self.coefficient,
            components: clone_ctypes(&self.components),
        };
        proof {
            assert(res@.components =~= self@.components);
        }
        res
    }
}

fn clone_ctypes(v: &Vec<ComponentType>) -> (res: Vec<ComponentType>)
    ensures
        res@.len() == v@.len(),
        forall|i: int| 0 <= i < v@.len() ==> res@[i]@ == v@[i]@,
{
    let mut res: Vec<ComponentType> = Vec::new();
    let mut i: usize = 0;
    while i < v.len()
        invariant
            i <= v.len(),
            res@.len() == i,
            forall|j: int| 0 <= j < i ==> res@[j]@ == v@[j]@,
        decreases v.len() - i,
    {
        res.push(v[i].clone());
        i = i + 1;
    }
    res
}

pub open spec fn constituent_wf(c: ConstituentV) -> bool {
    &&& c.coefficient >= 1
    &&& forall|i: int| 0 <= i < c.components.len() ==> ctype_wf(#[trigger] c.components[i])
}

/// A parsed constituent also carries at least one component.
pub open spec fn constituent_complete(c: ConstituentV) -> bool {
    &&& constituent_wf(c)
    &&& c.components.len() >= 1
}

/// Atoms of element `e` in one unit of the constituent (its formula alone,
/// without the coefficient).
pub open spec fn unit_atoms(c: ConstituentV, e: int) -> int {
    ctypes_atoms(c.components, e)
}

/// Total atoms of element `e` contributed by the constituent, accounting
/// for its coefficient.
pub open spec fn constituent_atoms(c: ConstituentV, e: int) -> int {
    (c.coefficient as int) * unit_atoms(c, e)
}

pub open spec fn side_atoms(s: Seq<ConstituentV>, e: int) -> int
    decreases s.len(),
{
    if s.len() == 0 {
        0
    } else {
        side_atoms(s.drop_last(), e) + constituent_atoms(s.last(), e)
    }
}

/// A chemical equation: reactants on the left, products on the right.
#[derive(Debug)]
pub struct Equation {
    pub reactants: Vec<EquationConstituent>,
    pub products: Vec<EquationConstituent>,
}

/// The mathematical shape of an equation.
pub struct EquationV {
    pub reactants: Seq<ConstituentV>,
    pub products: Seq<ConstituentV>,
}

impl View for Equation {
    type V = EquationV;

    open spec fn view(&self) -> EquationV {
        EquationV {
            reactants: Seq::new(self.reactants@.len(), |i: int| self.reactants@[i]@),
            products: Seq::new(self.products@.len(), |i: int| self.products@[i]@),
        }
    }
}

impl Clone for Equation {
    fn clone(&self) -> (res: Self)
        ensures
            res@ == self@,
    {
        let res = Equation {
            reactants: clone_constituents(&self.reactants),
            products: clone_constituents(&self.products),
        };
        proof {
            assert(res@.reactants =~= self@.reactants);
            assert(res@.products =~= self@.products);
        }
        res
    }
}

fn clone_constituents(v: &Vec<EquationConstituent>) -> (res: Vec<EquationConstituent>)
    ensures
        res@.len() == v@.len(),
        forall|i: int| 0 <= i < v@.len() ==> res@[i]@ == v@[i]@,
{
    let mut res: Vec<EquationConstituent> = Vec::new();
    let mut i: usize = 0;
    while i < v.len()
        invariant
            i <= v.len(),
            res@.len() == i,
            forall|j: int| 0 <= j < i ==> res@[j]@ == v@[j]@,
        decreases v.len() - i,
    {
        res.push(v[i].clone());
        i = i + 1;
    }
    res
}

pub open spec fn equation_wf(eq: EquationV) -> bool {
    &&& forall|i: int| 0 <= i < eq.reactants.len() ==> constituent_complete(
        #[trigger] eq.reactants[i],
    )
    &&& forall|i: int| 0 <= i < eq.products.len() ==> constituent_complete(
        #[trigger] eq.products[i],
    )
}

/// Atom conservation: every element's total count matches across the sides.
pub open spec fn balanced_spec(eq: EquationV) -> bool {
    forall|e: int| side_atoms(eq.reactants, e) == side_atoms(eq.products, e)
}

/// The two equations have the same formulas in the same order; only the
/// coefficients may differ.
pub open spec fn same_skeleton(a: EquationV, b: EquationV) -> bool {
    &&& a.reactants.len() == b.reactants.len()
    &&& a.products.len() == b.products.len()
    &&& forall|i: int| 0 <= i < a.reactants.len() ==> (#[trigger] a.reactants[i]).components
        == b.reactants[i].components
    &&& forall|i: int| 0 <= i < a.products.len() ==> (#[trigger] a.products[i]).components
        == b.products[i].components
}

pub open spec fn constituents_view(s: Seq<EquationConstituent>) -> Seq<ConstituentV> {
    Seq::new(s.len(), |i: int| s[i]@)
}

proof fn lemma_components_atoms_nonneg(s: Seq<Component>, e: int)
    ensures
        components_atoms(s, e) >= 0,
    decreases s.len(),
{
    if s.len() > 0 {
        lemma_components_atoms_nonneg(s.drop_last(), e);
    }
}

proof fn lemma_ctype_atoms_nonneg(c: CtypeV, e: int)
    ensures
        ctype_atoms(c, e) >= 0,
{
    match c {
        CtypeV::Element(_) => {},
        CtypeV::Multiple(v, m) => {
            lemma_components_atoms_nonneg(v, e);
            assert(components_atoms(v, e) * (m as int) >= 0) by (nonlinear_arith)
                requires
                    components_atoms(v, e) >= 0,
                    m >= 0,
            ;
        },
    }
}

proof fn lemma_ctypes_atoms_nonneg(s: Seq<CtypeV>, e: int)
    ensures
        ctypes_atoms(s, e) >= 0,
    decreases s.len(),
{
    if s.len() > 0 {
        lemma_ctypes_atoms_nonneg(s.drop_last(), e);
        lemma_ctype_atoms_nonneg(s.last(), e);
    }
}

proof fn lemma_constituent_atoms_nonneg(c: ConstituentV, e: int)
    ensures
        constituent_atoms(c, e) >= 0,
{
    lemma_ctypes_atoms_nonneg(c.components, e);
    assert((c.coefficient as int) * unit_atoms(c, e) >= 0) by (nonlinear_arith)
        requires
            unit_atoms(c, e) >= 0,
            c.coefficient >= 0,
    ;
}

proof fn lemma_side_atoms_nonneg(s: Seq<ConstituentV>, e: int)
    ensures
        side_atoms(s, e) >= 0,
    decreases s.len(),
{
    if s.len() > 0 {
        lemma_side_atoms_nonneg(s.drop_last(), e);
        lemma_constituent_atoms_nonneg(s.last(), e);
    }
}

proof fn lemma_components_atoms_take_step(s: Seq<Component>, i: int, e: int)
    requires
        0 <= i < s.len(),
    ensures
        components_atoms(s.take(i + 1), e) == components_atoms(s.take(i), e) + component_atoms(
            s[i],
            e,
        ),
{
    assert(s.take(i + 1).drop_last() =~= s.take(i));
    assert(s.take(i + 1).last() == s[i]);
}

proof fn lemma_ctypes_atoms_take_step(s: Seq<CtypeV>, i: int, e: int)
    requires
        0 <= i < s.len(),
    ensures
        ctypes_atoms(s.take(i + 1), e) == ctypes_atoms(s.take(i), e) + ctype_atoms(s[i], e),
{
    assert(s.take(i + 1).drop_last() =~= s.take(i));
    assert(s.take(i + 1).last() == s[i]);
}

proof fn lemma_side_atoms_take_step(s: Seq<ConstituentV>, i: int, e: int)
    requires
        0 <= i < s.len(),
    ensures
        side_atoms(s.take(i + 1), e) == side_atoms(s.take(i), e) + constituent_atoms(s[i], e),
{
    assert(s.take(i + 1).drop_last() =~= s.take(i));
    assert(s.take(i + 1).last() == s[i]);
}

/// A strictly ascending sequence of element numbers.
pub open spec fn sorted_keys(s: Seq<u32>) -> bool {
    forall|i: int, j: int| 0 <= i < j < s.len() ==> s[i] < s[j]
}

pub open spec fn key_in(s: Seq<u32>, x: int) -> bool {
    exists|i: int| 0 <= i < s.len() && s[i] == x
}

/// Inserts `e` into the ascending key list, keeping it sorted and distinct.
fn insert_key(v: &mut Vec<u32>, e: u32)
    requires
        sorted_keys(old(v)@),
    ensures
        sorted_keys(final(v)@),
        forall|x: int| key_in(final(v)@, x) <==> (key_in(old(v)@, x) || x == e),
{
    let ghost orig = v@;
    let mut i: usize = 0;
    while i < v.len() && v[i] < e
        invariant
            i <= v@.len(),
            v@ == orig,
            sorted_keys(orig),
            forall|j: int| 0 <= j < i ==> orig[j] < e,
        decreases v@.len() - i,
    {
        i = i + 1;
    }
    if i < v.len() && v[i] == e {
        proof {
            assert(key_in(orig, e as int));
            assert(forall|x: int| key_in(v@, x) <==> (key_in(orig, x) || x == e));
        }
    } else {
        proof {
            if i < v@.len() {
                assert(orig[i as int] > e);
            }
            assert(forall|p: int| i <= p < orig.len() ==> orig[p] > e) by {
                assert(forall|p: int|
                    i < p < orig.len() ==> orig[p] > orig[i as int] >= e || orig[p] > e);
            }
        }
        v.insert(i, e);
        proof {
            orig.insert_ensures(i as int, e);
            assert(sorted_keys(v@)) by {
                assert(forall|p: int, q: int| 0 <= p < q < v@.len() ==> v@[p] < v@[q]) by {
                    assert(forall|p: int| 0 <= p < i ==> v@[p] == orig[p]);
                    assert(forall|p: int| i < p < v@.len() ==> v@[p] == orig[p - 1]);
                    assert(v@[i as int] == e);
                }
            }
            assert(forall|x: int| key_in(v@, x) <==> (key_in(orig, x) || x == e)) by {
                assert(forall|x: int| key_in(orig, x) ==> key_in(v@, x)) by {
                    assert(forall|p: int|
                        0 <= p < orig.len() ==> orig[p] == (if p < i {
                            v@[p]
                        } else {
                            v@[p + 1]
                        }));
                }
                assert(key_in(v@, e as int)) by {
                    assert(v@[i as int] == e);
                }
                assert(forall|x: int| key_in(v@, x) && x != e ==> key_in(orig, x)) by {
                    assert(forall|p: int|
                        0 <= p < v@.len() && p != i ==> v@[p] == (if p < i {
                            orig[p]
                        } else {
                            orig[p - 1]
                        }));
                }
            }
        }
    }
}

/// The accumulated key list holds exactly the old keys plus the elements
/// of the scanned members.
spec fn covers_members(ks: Seq<u32>, orig: Seq<u32>, mems: Seq<Component>, x: int) -> bool {
    key_in(ks, x) <==> (key_in(orig, x) || components_atoms(mems, x) != 0)
}

/// As `covers_members`, for one whole component.
spec fn covers_ctype(ks: Seq<u32>, orig: Seq<u32>, c: CtypeV, x: int) -> bool {
    key_in(ks, x) <==> (key_in(orig, x) || ctype_atoms(c, x) != 0)
}

/// As `covers_members`, for a constituent's component list.
spec fn covers_ctypes(ks: Seq<u32>, orig: Seq<u32>, s: Seq<CtypeV>, x: int) -> bool {
    key_in(ks, x) <==> (key_in(orig, x) || ctypes_atoms(s, x) != 0)
}

/// As `covers_members`, for one side of an equation.
spec fn covers_side(ks: Seq<u32>, orig: Seq<u32>, s: Seq<ConstituentV>, x: int) -> bool {
    key_in(ks, x) <==> (key_in(orig, x) || side_atoms(s, x) != 0)
}

/// Adds to `keys` every element that occurs among the group members.
fn components_keys(v: &Vec<Component>, keys: &mut Vec<u32>)
    requires
        sorted_keys(old(keys)@),
        forall|i: int| 0 <= i < v@.len() ==> component_wf(#[trigger] v@[i]),
    ensures
        sorted_keys(final(keys)@),
        forall|x: int| #[trigger] covers_members(final(keys)@, old(keys)@, v@, x),
{
    let ghost orig = keys@;
    let ghost mem = v@;
    let mut i: usize = 0;
    while i < v.len()
        invariant
            i <= v@.len(),
            sorted_keys(keys@),
            mem == v@,
            forall|j: int| 0 <= j < mem.len() ==> component_wf(#[trigger] mem[j]),
            forall|x: int| #[trigger] covers_members(keys@, orig, mem.take(i as int), x),
        decreases v@.len() - i,
    {
        let ghost before = keys@;
        insert_key(keys, v[i].element);
        proof {
            assert forall|x: int| #[trigger] covers_members(
                keys@,
                orig,
                mem.take(i + 1),
                x,
            ) by {
                assert(covers_members(before, orig, mem.take(i as int), x));
                lemma_components_atoms_nonneg(mem.take(i as int), x);
                assert(components_atoms(mem.take(i + 1), x) == components_atoms(
                    mem.take(i as int),
                    x,
                ) + component_atoms(mem[i as int], x)) by {
                    assert(mem.take(i + 1).drop_last() =~= mem.take(i as int));
                    assert(mem.take(i + 1).last() == mem[i as int]);
                }
                assert(component_atoms(mem[i as int], x) != 0 <==> x == mem[i as int].element);
                assert(key_in(keys@, x) <==> (key_in(before, x) || x == mem[i as int].element));
            }
        }
        i = i + 1;
    }
    proof {
        assert(mem.take(mem.len() as int) =~= mem);
        assert forall|x: int| #[trigger] covers_members(keys@, orig, v@, x) by {
            assert(covers_members(keys@, orig, mem.take(mem.len() as int), x));
        }
    }
}

/// Adds to `keys` every element that occurs in the component.
fn ctype_keys(c: &ComponentType, keys: &mut Vec<u32>)
    requires
        sorted_keys(old(keys)@),
        ctype_wf(c@),
    ensures
        sorted_keys(final(keys)@),
        forall|x: int| #[trigger] covers_ctype(final(keys)@, old(keys)@, c@, x),
{
    let ghost orig = keys@;
    match c {
        ComponentType::Element(comp) => {
            insert_key(keys, comp.element);
            proof {
                assert forall|x: int| #[trigger] covers_ctype(keys@, orig, c@, x) by {
                    assert(key_in(keys@, x) <==> (key_in(orig, x) || x == comp.element));
                    assert(component_wf(*comp));
                    assert(ctype_atoms(c@, x) == component_atoms(*comp, x));
                }
            }
        },
        ComponentType::Multiple(v, m) => {
            components_keys(v, keys);
            proof {
                assert forall|x: int| #[trigger] covers_ctype(keys@, orig, c@, x) by {
                    assert(covers_members(keys@, orig, v@, x));
                    lemma_components_atoms_nonneg(v@, x);
                    assert(ctype_atoms(c@, x) == components_atoms(v@, x) * (*m as int));
                    assert(components_atoms(v@, x) >= 0 && *m >= 1 ==> (components_atoms(v@, x) * (
                    *m as int) != 0 <==> components_atoms(v@, x) != 0)) by (nonlinear_arith);
                }
            }
        },
    }
}

/// Adds to `keys` every element that occurs in the constituent's formula.
fn constituent_keys(c: &EquationConstituent, keys: &mut Vec<u32>)
    requires
        sorted_keys(old(keys)@),
        constituent_wf(c@),
    ensures
        sorted_keys(final(keys)@),
        forall|x: int| #[trigger] covers_ctypes(final(keys)@, old(keys)@, c@.components, x),
{
    let ghost orig = keys@;
    let ghost cts = c@.components;
    let mut i: usize = 0;
    while i < c.components.len()
        invariant
            i <= c.components@.len(),
            sorted_keys(keys@),
            constituent_wf(c@),
            cts == c@.components,
            cts.len() == c.components@.len(),
            forall|j: int| 0 <= j < cts.len() ==> cts[j] == c.components@[j]@,
            forall|x: int| #[trigger] covers_ctypes(keys@, orig, cts.take(i as int), x),
        decreases c.components@.len() - i,
    {
        proof {
            assert(ctype_wf(cts[i as int]));
        }
        let ghost before = keys@;
        ctype_keys(&c.components[i], keys);
        proof {
            assert forall|x: int| #[trigger] covers_ctypes(keys@, orig, cts.take(i + 1), x) by {
                assert(covers_ctypes(before, orig, cts.take(i as int), x));
                assert(covers_ctype(keys@, before, c.components@[i as int]@, x));
                assert(c.components@[i as int]@ == cts[i as int]);
                lemma_ctypes_atoms_nonneg(cts.take(i as int), x);
                lemma_ctype_atoms_nonneg(cts[i as int], x);
                assert(ctypes_atoms(cts.take(i + 1), x) == ctypes_atoms(cts.take(i as int), x)
                    + ctype_atoms(cts[i as int], x)) by {
                    assert(cts.take(i + 1).drop_last() =~= cts.take(i as int));
                    assert(cts.take(i + 1).last() == cts[i as int]);
                }
            }
        }
        i = i + 1;
    }
    proof {
        assert(cts.take(cts.len() as int) =~= cts);
        assert forall|x: int| #[trigger] covers_ctypes(keys@, orig, c@.components, x) by {
            assert(covers_ctypes(keys@, orig, cts.take(cts.len() as int), x));
        }
    }
}

/// Adds to `keys` every element that occurs on the side.
fn side_keys(side: &Vec<EquationConstituent>, keys: &mut Vec<u32>)
    requires
        sorted_keys(old(keys)@),
        forall|i: int| 0 <= i < side@.len() ==> constituent_wf((#[trigger] side@[i])@),
    ensures
        sorted_keys(final(keys)@),
        forall|x: int| #[trigger] covers_side(final(keys)@, old(keys)@, constituents_view(side@), x),
{
    let ghost orig = keys@;
    let ghost cv = constituents_view(side@);
    let mut i: usize = 0;
    while i < side.len()
        invariant
            i <= side@.len(),
            sorted_keys(keys@),
            forall|j: int| 0 <= j < side@.len() ==> constituent_wf((#[trigger] side@[j])@),
            cv == constituents_view(side@),
            cv.len() == side@.len(),
            forall|j: int| 0 <= j < cv.len() ==> cv[j] == side@[j]@,
            forall|x: int| #[trigger] covers_side(keys@, orig, cv.take(i as int), x),
        decreases side@.len() - i,
    {
        let ghost before = keys@;
        constituent_keys(&side[i], keys);
        proof {
            assert forall|x: int| #[trigger] covers_side(keys@, orig, cv.take(i + 1), x) by {
                assert(covers_side(before, orig, cv.take(i as int), x));
                assert(covers_ctypes(keys@, before, side@[i as int]@.components, x));
                assert(cv[i as int] == side@[i as int]@);
                lemma_side_atoms_nonneg(cv.take(i as int), x);
                lemma_constituent_atoms_nonneg(cv[i as int], x);
                assert(side_atoms(cv.take(i + 1), x) == side_atoms(cv.take(i as int), x)
                    + constituent_atoms(cv[i as int], x)) by {
                    assert(cv.take(i + 1).drop_last() =~= cv.take(i as int));
                    assert(cv.take(i + 1).last() == cv[i as int]);
                }
                assert(constituent_atoms(cv[i as int], x) != 0 <==> unit_atoms(cv[i as int], x)
                    != 0) by {
                    lemma_ctypes_atoms_nonneg(cv[i as int].components, x);
                    assert(unit_atoms(cv[i as int], x) >= 0 && cv[i as int].coefficient >= 1 ==> (
                    (cv[i as int].coefficient as int) * unit_atoms(cv[i as int], x) != 0
                        <==> unit_atoms(cv[i as int], x) != 0)) by (nonlinear_arith);
                }
            }
        }
        i = i + 1;
    }
    proof {
        assert(cv.take(cv.len() as int) =~= cv);
        assert forall|x: int| #[trigger] covers_side(keys@, orig, cv, x) by {
            assert(covers_side(keys@, orig, cv.take(cv.len() as int), x));
        }
    }
}

proof fn lemma_components_atoms_mono(s: Seq<Component>, k: int, e: int)
    requires
        0 <= k <= s.len(),
    ensures
        components_atoms(s, e) >= components_atoms(s.take(k), e),
    decreases s.len(),
{
    if k == s.len() {
        assert(s.take(k) =~= s);
    } else {
        assert(s.drop_last().take(k) =~= s.take(k));
        lemma_components_atoms_mono(s.drop_last(), k, e);
    }
}

proof fn lemma_ctypes_atoms_mono(s: Seq<CtypeV>, k: int, e: int)
    requires
        0 <= k <= s.len(),
    ensures
        ctypes_atoms(s, e) >= ctypes_atoms(s.take(k), e),
    decreases s.len(),
{
    if k == s.len() {
        assert(s.take(k) =~= s);
    } else {
        assert(s.drop_last().take(k) =~= s.take(k));
        lemma_ctypes_atoms_mono(s.drop_last(), k, e);
        lemma_ctype_atoms_nonneg(s.last(), e);
    }
}

proof fn lemma_side_atoms_mono(s: Seq<ConstituentV>, k: int, e: int)
    requires
        0 <= k <= s.len(),
    ensures
        side_atoms(s, e) >= side_atoms(s.take(k), e),
    decreases s.len(),
{
    if k == s.len() {
        assert(s.take(k) =~= s);
    } else {
        assert(s.drop_last().take(k) =~= s.take(k));
        lemma_side_atoms_mono(s.drop_last(), k, e);
        lemma_constituent_atoms_nonneg(s.last(), e);
    }
}

/// Atoms of element `e` in one occurrence of the component, with checked
/// arithmetic; `None` reports a count beyond the integer range.
fn ctype_atoms_of(c: &ComponentType, e: u32) -> (r: Option<usize>)
    requires
        ctype_wf(c@),
    ensures
        r matches Some(n) ==> n == ctype_atoms(c@, e as int),
        r is None ==> ctype_atoms(c@, e as int) > usize::MAX,
{
    match c {
        ComponentType::Element(comp) => {
            if comp.element == e {
                Some(comp.subscript)
            } else {
                Some(0)
            }
        },
        ComponentType::Multiple(v, m) => {
            let ghost mem = v@;
            let mut sum: usize = 0;
            let mut i: usize = 0;
            while i < v.len()
                invariant
                    i <= v@.len(),
                    mem == v@,
                    ctype_wf(c@),
                    c@ == CtypeV::Multiple(mem, *m),
                    sum == components_atoms(mem.take(i as int), e as int),
                decreases v@.len() - i,
            {
                let a: usize = if v[i].element == e {
                    v[i].subscript
                } else {
                    0
                };
                proof {
                    assert(mem.take(i + 1).drop_last() =~= mem.take(i as int));
                    assert(mem.take(i + 1).last() == mem[i as int]);
                }
                match sum.checked_add(a) {
                    Some(s2) => {
                        sum = s2;
                    },
                    None => {
                        proof {
                            lemma_components_atoms_mono(mem, i + 1, e as int);
                            assert(components_atoms(mem, e as int) > usize::MAX);
                            assert(components_atoms(mem, e as int) * (*m as int)
                                >= components_atoms(mem, e as int)) by (nonlinear_arith)
                                requires
                                    components_atoms(mem, e as int) >= 0,
                                    *m >= 1,
                            ;
                        }
                        return None;
                    },
                }
                i = i + 1;
            }
            proof {
                assert(mem.take(mem.len() as int) =~= mem);
            }
            match sum.checked_mul(*m) {
                Some(t) => Some(t),
                None => {
                    proof {
                        assert(components_atoms(mem, e as int) * (*m as int) == sum * (*m as int));
                    }
                    None
                },
            }
        },
    }
}

/// Atoms of element `e` in one unit of the constituent, with checked
/// arithmetic.
fn unit_atoms_of(c: &EquationConstituent, e: u32) -> (r: Option<usize>)
    requires
        constituent_wf(c@),
    ensures
        r matches Some(n) ==> n == unit_atoms(c@, e as int),
        r is None ==> unit_atoms(c@, e as int) > usize::MAX,
{
    let ghost cts = c@.components;
    let mut sum: usize = 0;
    let mut i: usize = 0;
    while i < c.components.len()
        invariant
            i <= c.components@.len(),
            constituent_wf(c@),
            cts == c@.components,
            cts.len() == c.components@.len(),
            forall|j: int| 0 <= j < cts.len() ==> cts[j] == c.components@[j]@,
            sum == ctypes_atoms(cts.take(i as int), e as int),
        decreases c.components@.len() - i,
    {
        proof {
            assert(ctype_wf(cts[i as int]));
            assert(cts.take(i + 1).drop_last() =~= cts.take(i as int));
            assert(cts.take(i + 1).last() == cts[i as int]);
        }
        let a_opt = ctype_atoms_of(&c.components[i], e);
        match a_opt {
            Some(a) => {
                match sum.checked_add(a) {
                    Some(s2) => {
                        sum = s2;
                    },
                    None => {
                        proof {
                            lemma_ctypes_atoms_mono(cts, i + 1, e as int);
                        }
                        return None;
                    },
                }
            },
            None => {
                proof {
                    lemma_ctypes_atoms_mono(cts, i + 1, e as int);
                    lemma_ctypes_atoms_nonneg(cts.take(i as int), e as int);
                }
                return None;
            },
        }
        i = i + 1;
    }
    proof {
        assert(cts.take(cts.len() as int) =~= cts);
    }
    Some(sum)
}

/// Total atoms of element `e` contributed by the constituent, coefficient
/// included, with checked arithmetic.
fn constituent_atoms_of(c: &EquationConstituent, e: u32) -> (r: Option<usize>)
    requires
        constituent_wf(c@),
    ensures
        r matches Some(n) ==> n == constituent_atoms(c@, e as int),
        r is None ==> constituent_atoms(c@, e as int) > usize::MAX,
{
    match unit_atoms_of(c, e) {
        Some(u) => {
            match c.coefficient.checked_mul(u) {
                Some(t) => Some(t),
                None => None,
            }
        },
        None => {
            proof {
                assert((c@.coefficient as int) * unit_atoms(c@, e as int) >= unit_atoms(
                    c@,
                    e as int,
                )) by (nonlinear_arith)
                    requires
                        unit_atoms(c@, e as int) >= 0,
                        c@.coefficient >= 1,
                ;
            }
            None
        },
    }
}

/// Total atoms of element `e` on one side, with checked arithmetic.
fn side_atoms_of(side: &Vec<EquationConstituent>, e: u32) -> (r: Option<usize>)
    requires
        forall|i: int| 0 <= i < side@.len() ==> constituent_wf((#[trigger] side@[i])@),
    ensures
        r matches Some(n) ==> n == side_atoms(constituents_view(side@), e as int),
        r is None ==> side_atoms(constituents_view(side@), e as int) > usize::MAX,
{
    let ghost cv = constituents_view(side@);
    let mut sum: usize = 0;
    let mut i: usize = 0;
    while i < side.len()
        invariant
            i <= side@.len(),
            forall|j: int| 0 <= j < side@.len() ==> constituent_wf((#[trigger] side@[j])@),
            cv == constituents_view(side@),
            cv.len() == side@.len(),
            forall|j: int| 0 <= j < cv.len() ==> cv[j] == side@[j]@,
            sum == side_atoms(cv.take(i as int), e as int),
        decreases side@.len() - i,
    {
        proof {
            assert(cv.take(i + 1).drop_last() =~= cv.take(i as int));
            assert(cv.take(i + 1).last() == cv[i as int]);
        }
        let a_opt = constituent_atoms_of(&side[i], e);
        match a_opt {
            Some(a) => {
                match sum.checked_add(a) {
                    Some(s2) => {
                        sum = s2;
                    },
                    None => {
                        proof {
                            lemma_side_atoms_mono(cv, i + 1, e as int);
                        }
                        return None;
                    },
                }
            },
            None => {
                proof {
                    lemma_side_atoms_mono(cv, i + 1, e as int);
                    lemma_side_atoms_nonneg(cv.take(i as int), e as int);
                }
                return None;
            },
        }
        i = i + 1;
    }
    proof {
        assert(cv.take(cv.len() as int) =~= cv);
    }
    Some(sum)
}

/// An element-count list: strictly ascending element numbers, each with a
/// positive total count.
pub open spec fn sorted_counts(s: Seq<(u32, usize)>) -> bool {
    forall|i: int, j: int| 0 <= i < j < s.len() ==> (#[trigger] s[i]).0 < (#[trigger] s[j]).0
}

pub open spec fn counts_contains(s: Seq<(u32, usize)>, x: int) -> bool {
    exists|i: int| 0 <= i < s.len() && (#[trigger] s[i]).0 == x
}

/// Computes the per-element totals of one side as an ascending list.
fn side_totals(side: &Vec<EquationConstituent>) -> (r: Result<Vec<(u32, usize)>, EquationError>)
    requires
        forall|i: int| 0 <= i < side@.len() ==> constituent_wf((#[trigger] side@[i])@),
    ensures
        r matches Ok(v) ==> {
            &&& sorted_counts(v@)
            &&& forall|i: int| 0 <= i < v@.len() ==> (#[trigger] v@[i]).1 == side_atoms(
                constituents_view(side@),
                v@[i].0 as int,
            )
            &&& forall|x: int| counts_contains(v@, x) <==> side_atoms(constituents_view(side@), x)
                != 0
        },
        r is Err ==> r == Err::<Vec<(u32, usize)>, EquationError>(EquationError::ArithmeticOverflow)
            && exists|x: int| side_atoms(constituents_view(side@), x) > usize::MAX,
{
    let ghost cv = constituents_view(side@);
    let mut keys: Vec<u32> = Vec::new();
    side_keys(side, &mut keys);
    proof {
        assert forall|x: int| key_in(keys@, x) <==> side_atoms(cv, x) != 0 by {
            assert(covers_side(keys@, Seq::<u32>::empty(), cv, x));
        }
    }
    let mut out: Vec<(u32, usize)> = Vec::new();
    let mut i: usize = 0;
    while i < keys.len()
        invariant
            i <= keys@.len(),
            sorted_keys(keys@),
            forall|j: int| 0 <= j < side@.len() ==> constituent_wf((#[trigger] side@[j])@),
            cv == constituents_view(side@),
            forall|x: int| key_in(keys@, x) <==> side_atoms(cv, x) != 0,
            out@.len() == i,
            forall|j: int| 0 <= j < i ==> (#[trigger] out@[j]).0 == keys@[j],
            forall|j: int| 0 <= j < i ==> (#[trigger] out@[j]).1 == side_atoms(
                cv,
                keys@[j] as int,
            ),
        decreases keys@.len() - i,
    {
        let k = keys[i];
        match side_atoms_of(side, k) {
            Some(n) => {
                out.push((k, n));
            },
            None => {
                return Err(EquationError::ArithmeticOverflow);
            },
        }
        i = i + 1;
    }
    proof {
        assert forall|x: int| counts_contains(out@, x) <==> side_atoms(cv, x) != 0 by {
            if counts_contains(out@, x) {
                let j = choose|j: int| 0 <= j < out@.len() && (#[trigger] out@[j]).0 == x;
                assert(keys@[j] == x);
                assert(key_in(keys@, x));
            }
            if key_in(keys@, x) {
                let j = choose|j: int| 0 <= j < keys@.len() && keys@[j] == x;
                assert(out@[j].0 == x);
                assert(counts_contains(out@, x));
            }
        }
    }
    Ok(out)
}

/// Side totals are at least any single constituent's contribution.
proof fn lemma_side_atoms_term_lower(s: Seq<ConstituentV>, j: int, e: int)
    requires
        0 <= j < s.len(),
    ensures
        side_atoms(s, e) >= constituent_atoms(s[j], e),
    decreases s.len(),
{
    if j == s.len() - 1 {
        lemma_side_atoms_nonneg(s.drop_last(), e);
    } else {
        lemma_side_atoms_term_lower(s.drop_last(), j, e);
        lemma_constituent_atoms_nonneg(s.last(), e);
    }
}

/// Two ascending key lists with the same members are equal.
proof fn lemma_sorted_keys_same_members(a: Seq<u32>, b: Seq<u32>)
    requires
        sorted_keys(a),
        sorted_keys(b),
        forall|x: int| key_in(a, x) <==> key_in(b, x),
    ensures
        a == b,
    decreases a.len() + b.len(),
{
    if a.len() == 0 {
        if b.len() > 0 {
            assert(key_in(b, b[0] as int));
            assert(false);
        }
        assert(a =~= b);
    } else if b.len() == 0 {
        assert(key_in(a, a[0] as int));
        assert(false);
    } else {
        let la = a.last();
        let lb = b.last();
        assert(key_in(a, la as int));
        assert(key_in(b, lb as int));
        if la < lb {
            let i = choose|i: int| 0 <= i < a.len() && a[i] == lb;
            assert(a[i] <= la);
            assert(false);
        }
        if lb < la {
            let i = choose|i: int| 0 <= i < b.len() && b[i] == la;
            assert(b[i] <= lb);
            assert(false);
        }
        assert(la == lb);
        assert forall|x: int| key_in(a.drop_last(), x) <==> key_in(b.drop_last(), x) by {
            if key_in(a.drop_last(), x) {
                let i = choose|i: int| 0 <= i < a.len() - 1 && a.drop_last()[i] == x;
                assert(a[i] == x);
                assert(key_in(a, x));
                assert(a[i] < la);
                let j = choose|j: int| 0 <= j < b.len() && b[j] == x;
                assert(b[j] != lb);
                assert(j < b.len() - 1);
                assert(b.drop_last()[j] == x);
            }
            if key_in(b.drop_last(), x) {
                let i = choose|i: int| 0 <= i < b.len() - 1 && b.drop_last()[i] == x;
                assert(b[i] == x);
                assert(key_in(b, x));
                assert(b[i] < lb);
                let j = choose|j: int| 0 <= j < a.len() && a[j] == x;
                assert(a[j] != la);
                assert(j < a.len() - 1);
                assert(a.drop_last()[j] == x);
            }
        }
        lemma_sorted_keys_same_members(a.drop_last(), b.drop_last());
        assert(a =~= a.drop_last().push(la));
        assert(b =~= b.drop_last().push(lb));
    }
}

/// The per-element atom counts of one unit of a constituent (without the
/// coefficient), as an ascending list.
fn unit_totals(c: &EquationConstituent) -> (r: Result<Vec<(u32, usize)>, EquationError>)
    requires
        constituent_wf(c@),
    ensures
        r matches Ok(v) ==> {
            &&& sorted_counts(v@)
            &&& forall|i: int| 0 <= i < v@.len() ==> (#[trigger] v@[i]).1 == unit_atoms(
                c@,
                v@[i].0 as int,
            )
            &&& forall|x: int| counts_contains(v@, x) <==> unit_atoms(c@, x) != 0
        },
        r is Err ==> r == Err::<Vec<(u32, usize)>, EquationError>(EquationError::ArithmeticOverflow)
            && exists|x: int| unit_atoms(c@, x) > usize::MAX,
{
    let mut keys: Vec<u32> = Vec::new();
    constituent_keys(c, &mut keys);
    proof {
        assert forall|x: int| key_in(keys@, x) <==> unit_atoms(c@, x) != 0 by {
            assert(covers_ctypes(keys@, Seq::<u32>::empty(), c@.components, x));
        }
    }
    let mut out: Vec<(u32, usize)> = Vec::new();
    let mut i: usize = 0;
    while i < keys.len()
        invariant
            i <= keys@.len(),
            sorted_keys(keys@),
            constituent_wf(c@),
            forall|x: int| key_in(keys@, x) <==> unit_atoms(c@, x) != 0,
            out@.len() == i,
            forall|j: int| 0 <= j < i ==> (#[trigger] out@[j]).0 == keys@[j],
            forall|j: int| 0 <= j < i ==> (#[trigger] out@[j]).1 == unit_atoms(
                c@,
                keys@[j] as int,
            ),
        decreases keys@.len() - i,
    {
        let k = keys[i];
        match unit_atoms_of(c, k) {
            Some(n) => {
                out.push((k, n));
            },
            None => {
                return Err(EquationError::ArithmeticOverflow);
            },
        }
        i = i + 1;
    }
    proof {
        assert forall|x: int| counts_contains(out@, x) <==> unit_atoms(c@, x) != 0 by {
            if counts_contains(out@, x) {
                let j = choose|j: int| 0 <= j < out@.len() && (#[trigger] out@[j]).0 == x;
                assert(keys@[j] == x);
                assert(key_in(keys@, x));
            }
            if key_in(keys@, x) {
                let j = choose|j: int| 0 <= j < keys@.len() && keys@[j] == x;
                assert(out@[j].0 == x);
                assert(counts_contains(out@, x));
            }
        }
    }
    Ok(out)
}

fn component_ok(c: &Component) -> (r: bool)
    ensures
        r == component_wf(*c),
{
    c.element >= 1 && c.subscript >= 1
}

fn ctype_ok_check(c: &ComponentType) -> (r: bool)
    ensures
        r == ctype_wf(c@),
{
    match c {
        ComponentType::Element(comp) => component_ok(comp),
        ComponentType::Multiple(v, m) => {
            if v.len() == 0 || *m == 0 {
                false
            } else {
                let mut i: usize = 0;
                let mut good = true;
                while i < v.len()
                    invariant
                        i <= v@.len(),
                        good == (forall|j: int| 0 <= j < i ==> component_wf(#[trigger] v@[j])),
                    decreases v@.len() - i,
                {
                    let cwf = component_ok(&v[i]);
                    good = good && cwf;
                    i = i + 1;
                }
                good
            }
        },
    }
}

fn constituent_ok_check(c: &EquationConstituent) -> (r: bool)
    ensures
        r == constituent_complete(c@),
{
    if c.coefficient == 0 || c.components.len() == 0 {
        return false;
    }
    let mut i: usize = 0;
    let mut good = true;
    while i < c.components.len()
        invariant
            i <= c.components@.len(),
            good == (forall|j: int| 0 <= j < i ==> ctype_wf(#[trigger] c.components@[j]@)),
        decreases c.components@.len() - i,
    {
        let cwf = ctype_ok_check(&c.components[i]);
        good = good && cwf;
        i = i + 1;
    }
    proof {
        if good {
            assert forall|j: int| 0 <= j < c@.components.len() implies ctype_wf(
                #[trigger] c@.components[j],
            ) by {
                assert(c@.components[j] == c.components@[j]@);
            }
        } else {
            let j = choose|j: int| 0 <= j < c.components@.len() && !ctype_wf(c.components@[j]@);
            assert(c@.components[j] == c.components@[j]@);
        }
    }
    good
}

fn side_well_formed(side: &Vec<EquationConstituent>) -> (r: bool)
    ensures
        r == (forall|i: int|
            0 <= i < side@.len() ==> constituent_complete(
                #[trigger] constituents_view(side@)[i],
            )),
{
    let mut i: usize = 0;
    let mut good = true;
    while i < side.len()
        invariant
            i <= side@.len(),
            good == (forall|j: int| 0 <= j < i ==> constituent_complete(
                (#[trigger] side@[j])@,
            )),
        decreases side@.len() - i,
    {
        let cwf = constituent_ok_check(&side[i]);
        good = good && cwf;
        i = i + 1;
    }
    proof {
        if good {
            assert forall|j: int|
                0 <= j < side@.len() implies constituent_complete(
                #[trigger] constituents_view(side@)[j],
            ) by {
                assert(constituents_view(side@)[j] == side@[j]@);
            }
        } else {
            let j = choose|j: int| 0 <= j < side@.len() && !constituent_complete(side@[j]@);
            assert(constituents_view(side@)[j] == side@[j]@);
        }
    }
    good
}

impl EquationConstituent {
    /// Builds a constituent of plain (element, subscript) components.
    pub fn new(coefficient: usize, components: &[(u32, usize)]) -> (res: Self)
        requires
            coefficient >= 1,
            forall|i: int| 0 <= i < components@.len() ==> (#[trigger] components@[i]).0 >= 1
                && components@[i].1 >= 1,
        ensures
            res@.coefficient == coefficient,
            res@.components.len() == components@.len(),
            forall|i: int| 0 <= i < components@.len() ==> res@.components[i] == CtypeV::Element(
                Component { element: components@[i].0, subscript: components@[i].1 },
            ),
            constituent_wf(res@),
    {
        let mut store: Vec<ComponentType> = Vec::new();
        let mut i: usize = 0;
        while i < components.len()
            invariant
                i <= components@.len(),
                store@.len() == i,
                forall|j: int| 0 <= j < i ==> store@[j]@ == CtypeV::Element(
                    Component { element: components@[j].0, subscript: components@[j].1 },
                ),
                forall|j: int| 0 <= j < components@.len() ==> (#[trigger] components@[j]).0 >= 1
                    && components@[j].1 >= 1,
            decreases components@.len() - i,
        {
            let (element, count) = components[i];
            store.push(ComponentType::Element(Component { element, subscript: count }));
            i = i + 1;
        }
        EquationConstituent { coefficient, components: store }
    }

    /// The total atoms of every element present in this constituent,
    /// accounting for the coefficient, as an ascending list.
    pub fn elements(&self) -> (r: Result<Vec<(u32, usize)>, EquationError>)
        requires
            constituent_wf(self@),
        ensures
            r matches Ok(v) ==> {
                &&& sorted_counts(v@)
                &&& forall|i: int| 0 <= i < v@.len() ==> (#[trigger] v@[i]).1 == constituent_atoms(
                    self@,
                    v@[i].0 as int,
                )
                &&& forall|x: int| counts_contains(v@, x) <==> constituent_atoms(self@, x) != 0
            },
            r is Err ==> r == Err::<Vec<(u32, usize)>, EquationError>(
                EquationError::ArithmeticOverflow,
            ) && exists|x: int| constituent_atoms(self@, x) > usize::MAX,
    {
        let mut keys: Vec<u32> = Vec::new();
        constituent_keys(self, &mut keys);
        proof {
            assert forall|x: int| key_in(keys@, x) <==> constituent_atoms(self@, x) != 0 by {
                assert(covers_ctypes(keys@, Seq::<u32>::empty(), self@.components, x));
                lemma_ctypes_atoms_nonneg(self@.components, x);
                assert(unit_atoms(self@, x) >= 0 && self@.coefficient >= 1 ==> ((
                self@.coefficient as int) * unit_atoms(self@, x) != 0 <==> unit_atoms(self@, x)
                    != 0)) by (nonlinear_arith);
            }
        }
        let mut out: Vec<(u32, usize)> = Vec::new();
        let mut i: usize = 0;
        while i < keys.len()
            invariant
                i <= keys@.len(),
                sorted_keys(keys@),
                constituent_wf(self@),
                forall|x: int| key_in(keys@, x) <==> constituent_atoms(self@, x) != 0,
                out@.len() == i,
                forall|j: int| 0 <= j < i ==> (#[trigger] out@[j]).0 == keys@[j],
                forall|j: int| 0 <= j < i ==> (#[trigger] out@[j]).1 == constituent_atoms(
                    self@,
                    keys@[j] as int,
                ),
            decreases keys@.len() - i,
        {
            let k = keys[i];
            match constituent_atoms_of(self, k) {
                Some(n) => {
                    out.push((k, n));
                },
                None => {
                    return Err(EquationError::ArithmeticOverflow);
                },
            }
            i = i + 1;
        }
        proof {
            assert forall|x: int| counts_contains(out@, x) <==> constituent_atoms(self@, x)
                != 0 by {
                if counts_contains(out@, x) {
                    let j = choose|j: int|
                        0 <= j < out@.len() && (#[trigger] out@[j]).0 == x;
                    assert(keys@[j] == x);
                    assert(key_in(keys@, x));
                }
                if key_in(keys@, x) {
                    let j = choose|j: int| 0 <= j < keys@.len() && keys@[j] == x;
                    assert(out@[j].0 == x);
                    assert(counts_contains(out@, x));
                }
            }
        }
        Ok(out)
    }
}

impl Equation {
    pub fn reactants(&self) -> (r: &Vec<EquationConstituent>)
        ensures
            r == &self.reactants,
    {
        &self.reactants
    }

    pub fn products(&self) -> (r: &Vec<EquationConstituent>)
        ensures
            r == &self.products,
    {
        &self.products
    }

    pub fn num_reactants(&self) -> (n: usize)
        ensures
            n == self@.reactants.len(),
    {
        self.reactants.len()
    }

    pub fn num_products(&self) -> (n: usize)
        ensures
            n == self@.products.len(),
    {
        self.products.len()
    }

    /// All elements present in the products with duplicates coalesced,
    /// as an ascending list of per-element totals.
    pub fn total_product_elements(&self) -> (r: Result<Vec<(u32, usize)>, EquationError>)
        requires
            forall|i: int| 0 <= i < self@.products.len() ==> constituent_wf(
                #[trigger] self@.products[i],
            ),
        ensures
            r matches Ok(v) ==> {
                &&& sorted_counts(v@)
                &&& forall|i: int| 0 <= i < v@.len() ==> (#[trigger] v@[i]).1 == side_atoms(
                    self@.products,
                    v@[i].0 as int,
                )
                &&& forall|x: int| counts_contains(v@, x) <==> side_atoms(self@.products, x) != 0
            },
            r is Err ==> r == Err::<Vec<(u32, usize)>, EquationError>(
                EquationError::ArithmeticOverflow,
            ) && exists|x: int| side_atoms(self@.products, x) > usize::MAX,
    {
        proof {
            assert(constituents_view(self.products@) =~= self@.products);
            assert forall|i: int| 0 <= i < self.products@.len() implies constituent_wf(
                (#[trigger] self.products@[i])@,
            ) by {
                assert(self.products@[i]@ == self@.products[i]);
            }
        }
        side_totals(&self.products)
    }

    /// Checks at run time that the equation satisfies the model
    /// invariants: positive coefficients, well-formed components, and at
    /// least one component in every constituent.
    pub fn well_formed(&self) -> (r: bool)
        ensures
            r == equation_wf(self@),
    {
        let a = side_well_formed(&self.reactants);
        let b = side_well_formed(&self.products);
        proof {
            assert(constituents_view(self.reactants@) =~= self@.reactants);
            assert(constituents_view(self.products@) =~= self@.products);
        }
        a && b
    }

    /// Renders this equation as text, looking element symbols up in the
    /// table; `c1F1 + c2F2 + ... = c1'F1' + ...` with coefficients of one
    /// omitted and subscripts in subscript digits.
    pub fn to_string(&self, p: &crate::periodic_table::SymbolTable) -> (r: Result<
        String,
        EquationError,
    >)
        ensures
            r matches Ok(s) ==> crate::periodic_table::equation_renderable(p.entries@, self@)
                && s@ == crate::periodic_table::render_equation(p.entries@, self@),
            r is Err ==> r == Err::<String, EquationError>(EquationError::ElementNotFound)
                && !crate::periodic_table::equation_renderable(p.entries@, self@),
    {
        match crate::periodic_table::equation_chars(p, self) {
            Ok(v) => Ok(crate::tui::chars_to_string(&v)),
            Err(e) => Err(e),
        }
    }

    /// A balanced copy of this equation: the minimal positive integer
    /// coefficients that conserve every element's atom count.
    pub fn balanced(&self) -> (r: Result<Equation, EquationError>)
        requires
            equation_wf(self@),
        ensures
            r matches Ok(b) ==> same_skeleton(b@, self@) && equation_wf(b@) && (self@.products.len()
                == 0 ==> b@ == self@) && (self@.products.len() >= 1 ==> balanced_spec(b@)
                && crate::equations::rational::gcd_seq(crate::equations::solve::coeffs_of(b@))
                == 1),
            self@.products.len() >= 1 ==> ((r == Err::<Equation, EquationError>(
                EquationError::UnusedElement,
            )) <==> crate::equations::solve::elements_mismatch(self@)),
            self@.products.len() == 0 ==> (r matches Ok(b) && b@ == self@),
            (self@.products.len() >= 1 && crate::equations::solve::spec_balance_ok(self@)) ==> (
            r matches Ok(b) && crate::equations::solve::coeffs_of(b@)
                == crate::equations::solve::spec_coeffs(self@)),
            (self@.products.len() >= 1) ==> (r matches Ok(b)
                ==> crate::equations::solve::spec_balance_ok(b@)
                == crate::equations::solve::spec_balance_ok(self@)
                && crate::equations::solve::spec_coeffs(b@)
                == crate::equations::solve::spec_coeffs(self@)),
            (self@.products.len() >= 1) ==> ((r is Ok)
                <==> crate::equations::solve::spec_balance_ok(self@)),
            (self@.products.len() >= 1 && crate::equations::solve::spec_solver_runs(self@)
                && crate::equations::solve::spec_min_scale(self@) == 0) ==> r == Err::<
                Equation,
                EquationError,
            >(EquationError::NoIntegerSolutionFound(100)),
            (self@.products.len() >= 1 && crate::equations::solve::spec_solver_runs(self@)
                && crate::equations::solve::spec_min_scale(self@) >= 1
                && crate::equations::solve::spec_coeffs_fit(self@)
                && crate::equations::solve::spec_candidate_fits(self@)
                && !crate::equations::solve::spec_candidate_conserves(self@)) ==> r == Err::<
                Equation,
                EquationError,
            >(EquationError::SingularWithoutSolution),
    {
        let mut balanced_eq = self.clone();
        match crate::equations::solve::balance_equation(&mut balanced_eq) {
            Ok(_) => Ok(balanced_eq),
            Err(e) => Err(e),
        }
    }
}

} // verus!
