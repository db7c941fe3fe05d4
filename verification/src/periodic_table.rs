//! The element symbol table the presentation layer renders with: each
//! chemical element's atomic number paired with its symbol. Full element
//! metadata lives outside the core; only what the rendering and the token
//! assembly read is held here, as plain values.

use vstd::prelude::*;

use crate::equations::{Component, ComponentType, ConstituentV, CtypeV, Equation, EquationConstituent, EquationError, EquationV};
use crate::tui::{chars_to_string, decimal_chars, spec_dec_chars, spec_sub_chars, sub_chars_of};

verus! {

/// A lookup between atomic numbers and element symbols.
#[derive(Debug)]
pub struct SymbolTable {
    pub entries: Vec<(u32, Vec<char>)>,
}

/// The symbol paired with `num`: the first matching entry.
pub open spec fn sym_lookup(s: Seq<(u32, Vec<char>)>, num: int) -> Option<Seq<char>>
    decreases s.len(),
{
    if s.len() == 0 {
        None
    } else if s[0].0 == num {
        Some(s[0].1@)
    } else {
        sym_lookup(s.drop_first(), num)
    }
}

/// The atomic number paired with `sym`: the first matching entry.
pub open spec fn num_lookup(s: Seq<(u32, Vec<char>)>, sym: Seq<char>) -> Option<u32>
    decreases s.len(),
{
    if s.len() == 0 {
        None
    } else if s[0].1@ == sym {
        Some(s[0].0)
    } else {
        num_lookup(s.drop_first(), sym)
    }
}

proof fn lemma_sym_lookup_skip(s: Seq<(u32, Vec<char>)>, i: int, num: int)
    requires
        0 <= i < s.len(),
        forall|j: int| 0 <= j < i ==> (#[trigger] s[j]).0 != num,
    ensures
        sym_lookup(s, num) == sym_lookup(s.skip(i), num),
    decreases i,
{
    if i > 0 {
        assert(s[0].0 != num);
        assert(s.drop_first() =~= s.skip(1));
        assert(forall|j: int| 0 <= j < i - 1 ==> (#[trigger] s.skip(1)[j]).0 != num);
        lemma_sym_lookup_skip(s.skip(1), i - 1, num);
        assert(s.skip(1).skip(i - 1) =~= s.skip(i));
    } else {
        assert(s.skip(0) =~= s);
    }
}

proof fn lemma_sym_lookup_none(s: Seq<(u32, Vec<char>)>, num: int)
    requires
        forall|j: int| 0 <= j < s.len() ==> (#[trigger] s[j]).0 != num,
    ensures
        sym_lookup(s, num) is None,
    decreases s.len(),
{
    if s.len() > 0 {
        assert(s.drop_first() =~= s.skip(1));
        lemma_sym_lookup_none(s.skip(1), num);
    }
}

proof fn lemma_num_lookup_none(s: Seq<(u32, Vec<char>)>, sym: Seq<char>)
    requires
        forall|j: int| 0 <= j < s.len() ==> (#[trigger] s[j]).1@ != sym,
    ensures
        num_lookup(s, sym) is None,
    decreases s.len(),
{
    if s.len() > 0 {
        assert(s.drop_first() =~= s.skip(1));
        lemma_num_lookup_none(s.skip(1), sym);
    }
}

fn chars_equal(a: &Vec<char>, b: &Vec<char>) -> (r: bool)
    ensures
        r == (a@ == b@),
{
    if a.len() != b.len() {
        return false;
    }
    let mut i: usize = 0;
    while i < a.len()
        invariant
            i <= a@.len(),
            a@.len() == b@.len(),
            forall|j: int| 0 <= j < i ==> a@[j] == b@[j],
        decreases a@.len() - i,
    {
        if a[i] != b[i] {
            return false;
        }
        i = i + 1;
    }
    proof {
        assert(a@ =~= b@);
    }
    true
}

impl SymbolTable {
    /// An empty table.
    pub fn new() -> (t: SymbolTable)
        ensures
            t.entries@.len() == 0,
    {
        SymbolTable { entries: Vec::new() }
    }

    /// Adds one element; an entry whose number or symbol is already
    /// present is rejected.
    pub fn add(&mut self, number: u32, symbol: Vec<char>) -> (ok: bool)
        ensures
            ok ==> final(self).entries@ == old(self).entries@.push((number, symbol)),
            !ok ==> final(self).entries@ == old(self).entries@ && (sym_lookup(
                old(self).entries@,
                number as int,
            ) is Some || num_lookup(old(self).entries@, symbol@) is Some),
    {
        let mut i: usize = 0;
        while i < self.entries.len()
            invariant
                i <= self.entries@.len(),
                self.entries@ == old(self).entries@,
                forall|j: int| 0 <= j < i ==> (#[trigger] self.entries@[j]).0 != number
                    && self.entries@[j].1@ != symbol@,
            decreases self.entries@.len() - i,
        {
            let hit = self.entries[i].0 == number || chars_equal(&self.entries[i].1, &symbol);
            if hit {
                proof {
                    if self.entries@[i as int].0 == number {
                        lemma_sym_lookup_skip(self.entries@, i as int, number as int);
                        assert(sym_lookup(self.entries@.skip(i as int), number as int) == Some(
                            self.entries@.skip(i as int)[0].1@,
                        ));
                    } else {
                        lemma_num_lookup_skip(self.entries@, i as int, symbol@);
                        assert(num_lookup(self.entries@.skip(i as int), symbol@) == Some(
                            self.entries@.skip(i as int)[0].0,
                        ));
                    }
                }
                return false;
            }
            i = i + 1;
        }
        self.entries.push((number, symbol));
        true
    }

    /// The symbol of the element with the given atomic number.
    pub fn by_number(&self, num: u32) -> (r: Option<&Vec<char>>)
        ensures
            r matches Some(v) ==> sym_lookup(self.entries@, num as int) == Some(v@),
            r is None ==> sym_lookup(self.entries@, num as int) is None,
    {
        let mut i: usize = 0;
        while i < self.entries.len()
            invariant
                i <= self.entries@.len(),
                forall|j: int| 0 <= j < i ==> (#[trigger] self.entries@[j]).0 != num,
            decreases self.entries@.len() - i,
        {
            if self.entries[i].0 == num {
                proof {
                    lemma_sym_lookup_skip(self.entries@, i as int, num as int);
                }
                return Some(&self.entries[i].1);
            }
            i = i + 1;
        }
        proof {
            lemma_sym_lookup_none(self.entries@, num as int);
        }
        None
    }

    /// The atomic number of the element with the given symbol.
    pub fn by_symbol(&self, sym: &Vec<char>) -> (r: Option<u32>)
        ensures
            r == num_lookup(self.entries@, sym@),
    {
        let mut i: usize = 0;
        while i < self.entries.len()
            invariant
                i <= self.entries@.len(),
                forall|j: int| 0 <= j < i ==> (#[trigger] self.entries@[j]).1@ != sym@,
            decreases self.entries@.len() - i,
        {
            if chars_equal(&self.entries[i].1, sym) {
                proof {
                    lemma_num_lookup_skip(self.entries@, i as int, sym@);
                }
                return Some(self.entries[i].0);
            }
            i = i + 1;
        }
        proof {
            lemma_num_lookup_none(self.entries@, sym@);
        }
        None
    }
}


/// Every element of the component has a symbol in the table.
pub open spec fn ctype_renderable(entries: Seq<(u32, Vec<char>)>, c: CtypeV) -> bool {
    match c {
        CtypeV::Element(comp) => sym_lookup(entries, comp.element as int) is Some,
        CtypeV::Multiple(v, m) => forall|i: int|
            0 <= i < v.len() ==> sym_lookup(entries, (#[trigger] v[i]).element as int) is Some,
    }
}

pub open spec fn constituent_renderable(entries: Seq<(u32, Vec<char>)>, c: ConstituentV) -> bool {
    forall|i: int| 0 <= i < c.components.len() ==> ctype_renderable(
        entries,
        #[trigger] c.components[i],
    )
}

pub open spec fn side_renderable(entries: Seq<(u32, Vec<char>)>, s: Seq<ConstituentV>) -> bool {
    forall|i: int| 0 <= i < s.len() ==> constituent_renderable(entries, #[trigger] s[i])
}

pub open spec fn equation_renderable(entries: Seq<(u32, Vec<char>)>, eq: EquationV) -> bool {
    side_renderable(entries, eq.reactants) && side_renderable(entries, eq.products)
}

/// The text of one element occurrence: its symbol, then its subscript in
/// subscript digits when greater than one.
pub open spec fn render_member(entries: Seq<(u32, Vec<char>)>, comp: Component) -> Seq<char> {
    (match sym_lookup(entries, comp.element as int) {
        Some(sym) => sym,
        None => Seq::empty(),
    }) + (if comp.subscript > 1 {
        spec_sub_chars(comp.subscript as int)
    } else {
        Seq::empty()
    })
}

pub open spec fn render_members(entries: Seq<(u32, Vec<char>)>, v: Seq<Component>) -> Seq<char>
    decreases v.len(),
{
    if v.len() == 0 {
        Seq::empty()
    } else {
        render_members(entries, v.drop_last()) + render_member(entries, v.last())
    }
}

/// The text of one component: an element, or a parenthesized group with
/// its trailing multiplier when greater than one.
pub open spec fn render_ctype(entries: Seq<(u32, Vec<char>)>, c: CtypeV) -> Seq<char> {
    match c {
        CtypeV::Element(comp) => render_member(entries, comp),
        CtypeV::Multiple(v, m) => seq!['('] + render_members(entries, v) + seq![')'] + (if m > 1 {
            spec_sub_chars(m as int)
        } else {
            Seq::empty()
        }),
    }
}

pub open spec fn render_ctypes(entries: Seq<(u32, Vec<char>)>, s: Seq<CtypeV>) -> Seq<char>
    decreases s.len(),
{
    if s.len() == 0 {
        Seq::empty()
    } else {
        render_ctypes(entries, s.drop_last()) + render_ctype(entries, s.last())
    }
}

/// The text of one constituent: its coefficient in decimal when greater
/// than one, then its components.
pub open spec fn render_constituent(entries: Seq<(u32, Vec<char>)>, c: ConstituentV) -> Seq<char> {
    (if c.coefficient > 1 {
        spec_dec_chars(c.coefficient as int)
    } else {
        Seq::empty()
    }) + render_ctypes(entries, c.components)
}

/// The text of one side: constituents joined with " + ".
pub open spec fn render_side(entries: Seq<(u32, Vec<char>)>, s: Seq<ConstituentV>) -> Seq<char>
    decreases s.len(),
{
    if s.len() == 0 {
        Seq::empty()
    } else if s.len() == 1 {
        render_constituent(entries, s[0])
    } else {
        render_side(entries, s.drop_last()) + seq![' ', '+', ' '] + render_constituent(
            entries,
            s.last(),
        )
    }
}

/// The text of a whole equation: reactants, then " = " and the products
/// when there are any.
pub open spec fn render_equation(entries: Seq<(u32, Vec<char>)>, eq: EquationV) -> Seq<char> {
    render_side(entries, eq.reactants) + (if eq.products.len() > 0 {
        seq![' ', '=', ' '] + render_side(entries, eq.products)
    } else {
        Seq::empty()
    })
}

fn member_chars(t: &SymbolTable, comp: &Component) -> (r: Result<Vec<char>, EquationError>)
    ensures
        r matches Ok(v) ==> sym_lookup(t.entries@, comp.element as int) is Some && v@
            == render_member(t.entries@, *comp),
        r is Err ==> r == Err::<Vec<char>, EquationError>(EquationError::ElementNotFound)
            && sym_lookup(t.entries@, comp.element as int) is None,
{
    match t.by_number(comp.element) {
        None => Err(EquationError::ElementNotFound),
        Some(sym) => {
            let mut v: Vec<char> = Vec::new();
            let mut i: usize = 0;
            while i < sym.len()
                invariant
                    i <= sym@.len(),
                    v@ == sym@.take(i as int),
                decreases sym@.len() - i,
            {
                v.push(sym[i]);
                proof {
                    assert(v@ =~= sym@.take(i + 1));
                }
                i = i + 1;
            }
            proof {
                assert(sym@.take(sym@.len() as int) =~= sym@);
            }
            if comp.subscript > 1 {
                let mut subs = sub_chars_of(comp.subscript);
                v.append(&mut subs);
            }
            proof {
                assert(v@ =~= render_member(t.entries@, *comp));
            }
            Ok(v)
        },
    }
}

fn ctype_chars(t: &SymbolTable, c: &ComponentType) -> (r: Result<Vec<char>, EquationError>)
    ensures
        r matches Ok(v) ==> ctype_renderable(t.entries@, c@) && v@ == render_ctype(t.entries@, c@),
        r is Err ==> r == Err::<Vec<char>, EquationError>(EquationError::ElementNotFound)
            && !ctype_renderable(t.entries@, c@),
{
    match c {
        ComponentType::Element(comp) => {
            let v = member_chars(t, comp);
            v
        },
        ComponentType::Multiple(members, mult) => {
            let ghost mem = members@;
            let mut v: Vec<char> = Vec::new();
            v.push('(');
            proof {
                assert(v@ =~= seq!['('] + render_members(t.entries@, mem.take(0)));
            }
            let mut i: usize = 0;
            while i < members.len()
                invariant
                    i <= members@.len(),
                    mem == members@,
                    c@ == CtypeV::Multiple(mem, *mult),
                    forall|j: int| 0 <= j < i ==> sym_lookup(
                        t.entries@,
                        (#[trigger] mem[j]).element as int,
                    ) is Some,
                    v@ == seq!['('] + render_members(t.entries@, mem.take(i as int)),
                decreases members@.len() - i,
            {
                match member_chars(t, &members[i]) {
                    Ok(mut mv) => {
                        v.append(&mut mv);
                        proof {
                            assert(mem.take(i + 1).drop_last() =~= mem.take(i as int));
                            assert(mem.take(i + 1).last() == mem[i as int]);
                            assert(v@ =~= seq!['('] + render_members(t.entries@, mem.take(i + 1)));
                        }
                    },
                    Err(e) => {
                        proof {
                            assert(sym_lookup(t.entries@, mem[i as int].element as int) is None);
                            assert(!ctype_renderable(t.entries@, c@)) by {
                                if ctype_renderable(t.entries@, c@) {
                                    assert(sym_lookup(
                                        t.entries@,
                                        mem[i as int].element as int,
                                    ) is Some);
                                }
                            }
                        }
                        return Err(e);
                    },
                }
                i = i + 1;
            }
            proof {
                assert(mem.take(mem.len() as int) =~= mem);
            }
            v.push(')');
            if *mult > 1 {
                let mut subs = sub_chars_of(*mult);
                v.append(&mut subs);
            }
            proof {
                assert(v@ =~= render_ctype(t.entries@, c@));
            }
            Ok(v)
        },
    }
}

fn constituent_chars(t: &SymbolTable, c: &EquationConstituent) -> (r: Result<
    Vec<char>,
    EquationError,
>)
    ensures
        r matches Ok(v) ==> constituent_renderable(t.entries@, c@) && v@ == render_constituent(
            t.entries@,
            c@,
        ),
        r is Err ==> r == Err::<Vec<char>, EquationError>(EquationError::ElementNotFound)
            && !constituent_renderable(t.entries@, c@),
{
    let ghost cts = c@.components;
    let mut v: Vec<char> = Vec::new();
    if c.coefficient > 1 {
        let mut digits = decimal_chars(c.coefficient);
        v.append(&mut digits);
    }
    let ghost prefix = v@;
    proof {
        assert(v@ =~= prefix + render_ctypes(t.entries@, cts.take(0)));
    }
    let mut i: usize = 0;
    while i < c.components.len()
        invariant
            i <= c.components@.len(),
            cts == c@.components,
            cts.len() == c.components@.len(),
            forall|j: int| 0 <= j < cts.len() ==> cts[j] == c.components@[j]@,
            forall|j: int| 0 <= j < i ==> ctype_renderable(t.entries@, #[trigger] cts[j]),
            v@ == prefix + render_ctypes(t.entries@, cts.take(i as int)),
        decreases c.components@.len() - i,
    {
        match ctype_chars(t, &c.components[i]) {
            Ok(mut cv) => {
                v.append(&mut cv);
                proof {
                    assert(cts.take(i + 1).drop_last() =~= cts.take(i as int));
                    assert(cts.take(i + 1).last() == cts[i as int]);
                    assert(v@ =~= prefix + render_ctypes(t.entries@, cts.take(i + 1)));
                }
            },
            Err(e) => {
                proof {
                    assert(!ctype_renderable(t.entries@, cts[i as int]));
                    assert(!constituent_renderable(t.entries@, c@)) by {
                        if constituent_renderable(t.entries@, c@) {
                            assert(ctype_renderable(t.entries@, cts[i as int]));
                        }
                    }
                }
                return Err(e);
            },
        }
        i = i + 1;
    }
    proof {
        assert(cts.take(cts.len() as int) =~= cts);
        assert(v@ =~= render_constituent(t.entries@, c@));
    }
    Ok(v)
}

fn side_chars(t: &SymbolTable, s: &Vec<EquationConstituent>) -> (r: Result<
    Vec<char>,
    EquationError,
>)
    ensures
        r matches Ok(v) ==> side_renderable(t.entries@, crate::equations::constituents_view(s@))
            && v@ == render_side(t.entries@, crate::equations::constituents_view(s@)),
        r is Err ==> r == Err::<Vec<char>, EquationError>(EquationError::ElementNotFound)
            && !side_renderable(t.entries@, crate::equations::constituents_view(s@)),
{
    let ghost cv = crate::equations::constituents_view(s@);
    let mut v: Vec<char> = Vec::new();
    let mut i: usize = 0;
    while i < s.len()
        invariant
            i <= s@.len(),
            cv == crate::equations::constituents_view(s@),
            cv.len() == s@.len(),
            forall|j: int| 0 <= j < cv.len() ==> cv[j] == s@[j]@,
            forall|j: int| 0 <= j < i ==> constituent_renderable(t.entries@, #[trigger] cv[j]),
            v@ == render_side(t.entries@, cv.take(i as int)),
        decreases s@.len() - i,
    {
        match constituent_chars(t, &s[i]) {
            Ok(mut cc) => {
                if i > 0 {
                    v.push(' ');
                    v.push('+');
                    v.push(' ');
                }
                v.append(&mut cc);
                proof {
                    assert(cv.take(i + 1).drop_last() =~= cv.take(i as int));
                    assert(cv.take(i + 1).last() == cv[i as int]);
                    if i == 0 {
                        assert(cv.take(1) =~= seq![cv[0]]);
                        assert(v@ =~= render_side(t.entries@, cv.take(1)));
                    } else {
                        assert(v@ =~= render_side(t.entries@, cv.take(i + 1)));
                    }
                }
            },
            Err(e) => {
                proof {
                    assert(!constituent_renderable(t.entries@, cv[i as int]));
                    assert(!side_renderable(t.entries@, cv)) by {
                        if side_renderable(t.entries@, cv) {
                            assert(constituent_renderable(t.entries@, cv[i as int]));
                        }
                    }
                }
                return Err(e);
            },
        }
        i = i + 1;
    }
    proof {
        assert(cv.take(cv.len() as int) =~= cv);
    }
    Ok(v)
}

/// Renders a whole equation with the table's symbols, as
/// `c1F1 + c2F2 + ... = c1'F1' + ...`.
pub fn equation_chars(t: &SymbolTable, eq: &Equation) -> (r: Result<Vec<char>, EquationError>)
    ensures
        r matches Ok(v) ==> equation_renderable(t.entries@, eq@) && v@ == render_equation(
            t.entries@,
            eq@,
        ),
        r is Err ==> r == Err::<Vec<char>, EquationError>(EquationError::ElementNotFound)
            && !equation_renderable(t.entries@, eq@),
{
    proof {
        assert(crate::equations::constituents_view(eq.reactants@) =~= eq@.reactants);
        assert(crate::equations::constituents_view(eq.products@) =~= eq@.products);
    }
    let mut v = match side_chars(t, &eq.reactants) {
        Ok(v) => v,
        Err(e) => {
            return Err(e);
        },
    };
    if eq.products.len() > 0 {
        v.push(' ');
        v.push('=');
        v.push(' ');
        match side_chars(t, &eq.products) {
            Ok(mut pv) => {
                v.append(&mut pv);
            },
            Err(e) => {
                return Err(e);
            },
        }
    }
    proof {
        assert(v@ =~= render_equation(t.entries@, eq@));
    }
    Ok(v)
}

proof fn lemma_num_lookup_skip(s: Seq<(u32, Vec<char>)>, i: int, sym: Seq<char>)
    requires
        0 <= i < s.len(),
        forall|j: int| 0 <= j < i ==> (#[trigger] s[j]).1@ != sym,
    ensures
        num_lookup(s, sym) == num_lookup(s.skip(i), sym),
    decreases i,
{
    if i > 0 {
        assert(s[0].1@ != sym);
        assert(s.drop_first() =~= s.skip(1));
        assert(forall|j: int| 0 <= j < i - 1 ==> (#[trigger] s.skip(1)[j]).1@ != sym);
        lemma_num_lookup_skip(s.skip(1), i - 1, sym);
        assert(s.skip(1).skip(i - 1) =~= s.skip(i));
    } else {
        assert(s.skip(0) =~= s);
    }
}

} // verus!
