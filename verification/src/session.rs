//! The recipe session: an ordered ingredient store and the scaling engine.
//!
//! A session owns the ingredient rows, the selected-reference index, the
//! editing-mode flag and the last valid scale ratio. Structural edits keep
//! the selection pointing at the same logical row; `recompute` derives every
//! non-reference row's scaled display amount from the held ratio, freezing
//! any derived value whose input text fails to parse.

use vstd::prelude::*;
use vstd::arithmetic::div_mod::lemma_div_by_multiple;
use vstd::arithmetic::div_mod::lemma_fundamental_div_mod;
use vstd::arithmetic::div_mod::lemma_mod_division_less_than_divisor;
use vstd::string::StrSliceExecFns;
use crate::text::MAX_UNITS;
use crate::text::format_amount;
use crate::text::format_spec;
use crate::text::lemma_parse_bound;
use crate::text::lemma_parse_format;
use crate::text::parse_amount;
use crate::text::parse_spec;

verus! {

/// Error for any operation given an invalid ingredient position.
#[derive(Clone, Copy, PartialEq, Eq, Structural, Debug)]
pub struct OutOfRange;

/// One recipe row. Texts are what the user typed; `scaled_amount_text` is the
/// derived display value; `amount` retains the last successfully parsed
/// fixed-point value of `amount_text`.
pub struct Ingredient {
    pub name: String,
    pub amount_text: String,
    pub unit: String,
    pub reference_target_text: String,
    pub scaled_amount_text: String,
    pub amount: Option<u64>,
}

/// The scale ratio `num / den`, held exactly as a pair of fixed-point values.
#[derive(Clone, Copy, PartialEq, Eq, Structural, Debug)]
pub struct Ratio {
    pub num: u64,
    pub den: u64,
}

/// A row with every text empty and no parsed amount.
pub open spec fn blank_row(i: Ingredient) -> bool {
    &&& i.name@.len() == 0
    &&& i.amount_text@.len() == 0
    &&& i.unit@.len() == 0
    &&& i.reference_target_text@.len() == 0
    &&& i.scaled_amount_text@.len() == 0
    &&& i.amount is None
}

impl Default for Ingredient {
    /// A fresh row: all texts empty, no parsed amount.
    fn default() -> (r: Self)
        ensures
            blank_row(r),
    {
        Ingredient {
            name: String::new(),
            amount_text: String::new(),
            unit: String::new(),
            reference_target_text: String::new(),
            scaled_amount_text: String::new(),
            amount: None,
        }
    }
}

/// The reference's target text, seeded from its own amount text when empty.
pub open spec fn seeded_target(i: Ingredient) -> Seq<char> {
    if i.reference_target_text@.len() == 0 {
        i.amount_text@
    } else {
        i.reference_target_text@
    }
}

/// The ratio after one engine pass over the reference row: `target / original`
/// when both parse and the original is not zero, else the held ratio.
pub open spec fn ratio_after(r: Ratio, amount_text: Seq<char>, target_text: Seq<char>) -> Ratio {
    match (parse_spec(amount_text), parse_spec(target_text)) {
        (Some(o), Some(t)) => if o > 0 {
            (Ratio { num: t, den: o })
        } else {
            r
        },
        _ => r,
    }
}

/// The retained parsed amount: updated on a successful parse, kept otherwise.
pub open spec fn retained_amount(prev: Option<u64>, text: Seq<char>) -> Option<u64> {
    match parse_spec(text) {
        Some(a) => Some(a),
        None => prev,
    }
}

/// The derived fixed-point value of a non-reference row: the floor of
/// `ratio * amount`.
pub open spec fn scaled_units(r: Ratio, a: u64) -> nat {
    ((r.num * a) as nat) / (r.den as nat)
}

/// The derived display text of a non-reference row: recomputed when its
/// amount text parses, frozen at its previous value otherwise.
pub open spec fn scaled_text_after(r: Ratio, amount_text: Seq<char>, prev: Seq<char>) -> Seq<char> {
    match parse_spec(amount_text) {
        Some(a) => format_spec(scaled_units(r, a)),
        None => prev,
    }
}

/// Name, amount text and unit of a row are untouched by the engine.
pub open spec fn same_core(before: Ingredient, after: Ingredient) -> bool {
    &&& after.name@ == before.name@
    &&& after.amount_text@ == before.amount_text@
    &&& after.unit@ == before.unit@
}

/// How one engine pass rewrites the reference row.
pub open spec fn ref_row_rel(before: Ingredient, after: Ingredient) -> bool {
    &&& same_core(before, after)
    &&& after.reference_target_text@ == seeded_target(before)
    &&& after.scaled_amount_text@ == before.scaled_amount_text@
    &&& after.amount == retained_amount(before.amount, before.amount_text@)
}

/// How one engine pass rewrites a non-reference row, under ratio `r`.
pub open spec fn other_row_rel(before: Ingredient, after: Ingredient, r: Ratio) -> bool {
    &&& same_core(before, after)
    &&& after.reference_target_text@ == before.reference_target_text@
    &&& after.scaled_amount_text@ == scaled_text_after(r, before.amount_text@, before.scaled_amount_text@)
    &&& after.amount == retained_amount(before.amount, before.amount_text@)
}

/// The whole mutable state of the calculator.
pub struct RecipeSession {
    ingredients: Vec<Ingredient>,
    selected: Option<usize>,
    ratio: Ratio,
    editing: bool,
}

impl RecipeSession {
    /// The ordered ingredient rows.
    pub closed spec fn ings(self) -> Seq<Ingredient> {
        self.ingredients@
    }

    /// The selected-reference index, if any row is selected.
    pub closed spec fn sel(self) -> Option<usize> {
        self.selected
    }

    /// The held scale ratio.
    pub closed spec fn ratio_spec(self) -> Ratio {
        self.ratio
    }

    /// The editing-mode flag.
    pub closed spec fn editing_spec(self) -> bool {
        self.editing
    }

    /// Session validity: the selection indexes a row, the ratio denominator
    /// is positive, and every held number is below `MAX_UNITS`.
    pub open spec fn wf(self) -> bool {
        &&& (self.sel() matches Some(k) ==> k < self.ings().len())
        &&& 1 <= self.ratio_spec().den < MAX_UNITS
        &&& self.ratio_spec().num < MAX_UNITS
        &&& forall|i: int|
            0 <= i < self.ings().len() ==> (#[trigger] self.ings()[i].amount matches Some(a)
                ==> a < MAX_UNITS)
    }

    /// An empty session: no rows, nothing selected, ratio zero, mode off.
    pub fn new() -> (r: Self)
        ensures
            r.wf(),
            r.ings().len() == 0,
            r.sel() is None,
            r.ratio_spec() == (Ratio { num: 0, den: 1 }),
            !r.editing_spec(),
    {
        RecipeSession {
            ingredients: Vec::new(),
            selected: None,
            ratio: Ratio { num: 0, den: 1 },
            editing: false,
        }
    }

    /// Rebuild a session from restored parts; `None` if they are not valid.
    pub fn restore(
        ingredients: Vec<Ingredient>,
        selected: Option<usize>,
        ratio: Ratio,
        editing: bool,
    ) -> (r: Option<Self>)
        ensures
            restore_ok(ingredients@, selected, ratio) ==> (r matches Some(s) && s.wf()
                && s.ings() == ingredients@ && s.sel() == selected && s.ratio_spec() == ratio
                && s.editing_spec() == editing),
            !restore_ok(ingredients@, selected, ratio) ==> r is None,
    {
        if !(1 <= ratio.den && ratio.den < MAX_UNITS && ratio.num < MAX_UNITS) {
            return None;
        }
        match selected {
            Some(k) => {
                if k >= ingredients.len() {
                    return None;
                }
            },
            None => {},
        }
        let mut i: usize = 0;
        while i < ingredients.len()
            invariant
                i <= ingredients.len(),
                forall|t: int|
                    0 <= t < i ==> (#[trigger] ingredients@[t].amount matches Some(a) ==> a
                        < MAX_UNITS),
            decreases ingredients.len() - i,
        {
            match ingredients[i].amount {
                Some(a) => {
                    if a >= MAX_UNITS {
                        return None;
                    }
                },
                None => {},
            }
            i = i + 1;
        }
        Some(RecipeSession { ingredients, selected, ratio, editing })
    }

    /// How many rows the session holds.
    pub fn len(&self) -> (n: usize)
        ensures
            n == self.ings().len(),
    {
        self.ingredients.len()
    }

    /// Read a row; `OutOfRange` if the position is not a valid index.
    pub fn get(&self, pos: usize) -> (r: Result<&Ingredient, OutOfRange>)
        ensures
            pos < self.ings().len() ==> (r matches Ok(i) && *i == self.ings()[pos as int]),
            pos >= self.ings().len() ==> (r matches Err(e) && e == OutOfRange),
    {
        if pos < self.ingredients.len() {
            Ok(&self.ingredients[pos])
        } else {
            Err(OutOfRange)
        }
    }

    /// The selected-reference index, if any.
    pub fn selected(&self) -> (r: Option<usize>)
        ensures
            r == self.sel(),
    {
        self.selected
    }

    /// The editing-mode flag.
    pub fn editing(&self) -> (r: bool)
        ensures
            r == self.editing_spec(),
    {
        self.editing
    }

    /// The held scale ratio.
    pub fn ratio(&self) -> (r: Ratio)
        ensures
            r == self.ratio_spec(),
    {
        self.ratio
    }

    /// Append a fresh blank row; always succeeds.
    pub fn add(&mut self)
        requires
            old(self).wf(),
        ensures
            final(self).wf(),
            final(self).ings().len() == old(self).ings().len() + 1,
            forall|t: int|
                0 <= t < old(self).ings().len() ==> final(self).ings()[t] == old(self).ings()[t],
            blank_row(final(self).ings().last()),
            final(self).sel() == old(self).sel(),
            final(self).ratio_spec() == old(self).ratio_spec(),
            final(self).editing_spec() == old(self).editing_spec(),
    {
        self.ingredients.push(Ingredient::default());
    }

    /// Remove the row at `pos`, shifting later rows down. The selection keeps
    /// following the same logical row: it is cleared when its row is removed
    /// and shifted down when an earlier row is removed.
    pub fn remove(&mut self, pos: usize) -> (r: Result<(), OutOfRange>)
        requires
            old(self).wf(),
        ensures
            final(self).wf(),
            pos >= old(self).ings().len() ==> (r matches Err(e) && e == OutOfRange && *final(self)
                == *old(self)),
            pos < old(self).ings().len() ==> (r is Ok && final(self).ings() == old(self).ings().remove(pos as int) && final(self).ratio_spec() == old(self).ratio_spec()
                && final(self).editing_spec() == old(self).editing_spec() && final(self).sel()
                == (match old(self).sel() {
                None => None::<usize>,
                Some(k) => if k == pos {
                    None
                } else if k > pos {
                    Some((k - 1) as usize)
                } else {
                    Some(k)
                },
            })),
    {
        if pos >= self.ingredients.len() {
            return Err(OutOfRange);
        }
        self.ingredients.remove(pos);
        match self.selected {
            Some(k) => {
                if k == pos {
                    self.selected = None;
                } else if k > pos {
                    self.selected = Some(k - 1);
                }
            },
            None => {},
        }
        Ok(())
    }

    /// Edit a row's name; `OutOfRange` if the position is invalid.
    pub fn set_name(&mut self, pos: usize, text: String) -> (r: Result<(), OutOfRange>)
        requires
            old(self).wf(),
        ensures
            final(self).wf(),
            pos >= old(self).ings().len() ==> (r matches Err(e) && e == OutOfRange && *final(self)
                == *old(self)),
            pos < old(self).ings().len() ==> (r is Ok && final(self).ings() == old(self).ings().update(
                pos as int,
                (Ingredient { name: text, ..old(self).ings()[pos as int] }),
            ) && final(self).sel() == old(self).sel() && final(self).ratio_spec() == old(self).ratio_spec() && final(self).editing_spec() == old(self).editing_spec()),
    {
        if pos >= self.ingredients.len() {
            return Err(OutOfRange);
        }
        self.ingredients[pos].name = text;
        Ok(())
    }

    /// Edit a row's amount text; `OutOfRange` if the position is invalid.
    pub fn set_amount_text(&mut self, pos: usize, text: String) -> (r: Result<(), OutOfRange>)
        requires
            old(self).wf(),
        ensures
            final(self).wf(),
            pos >= old(self).ings().len() ==> (r matches Err(e) && e == OutOfRange && *final(self)
                == *old(self)),
            pos < old(self).ings().len() ==> (r is Ok && final(self).ings() == old(self).ings().update(
                pos as int,
                (Ingredient { amount_text: text, ..old(self).ings()[pos as int] }),
            ) && final(self).sel() == old(self).sel() && final(self).ratio_spec() == old(self).ratio_spec() && final(self).editing_spec() == old(self).editing_spec()),
    {
        if pos >= self.ingredients.len() {
            return Err(OutOfRange);
        }
        self.ingredients[pos].amount_text = text;
        Ok(())
    }

    /// Edit a row's unit label; `OutOfRange` if the position is invalid.
    pub fn set_unit(&mut self, pos: usize, text: String) -> (r: Result<(), OutOfRange>)
        requires
            old(self).wf(),
        ensures
            final(self).wf(),
            pos >= old(self).ings().len() ==> (r matches Err(e) && e == OutOfRange && *final(self)
                == *old(self)),
            pos < old(self).ings().len() ==> (r is Ok && final(self).ings() == old(self).ings().update(
                pos as int,
                (Ingredient { unit: text, ..old(self).ings()[pos as int] }),
            ) && final(self).sel() == old(self).sel() && final(self).ratio_spec() == old(self).ratio_spec() && final(self).editing_spec() == old(self).editing_spec()),
    {
        if pos >= self.ingredients.len() {
            return Err(OutOfRange);
        }
        self.ingredients[pos].unit = text;
        Ok(())
    }

    /// Edit a row's reference target text; `OutOfRange` if the position is
    /// invalid.
    pub fn set_target_text(&mut self, pos: usize, text: String) -> (r: Result<(), OutOfRange>)
        requires
            old(self).wf(),
        ensures
            final(self).wf(),
            pos >= old(self).ings().len() ==> (r matches Err(e) && e == OutOfRange && *final(self)
                == *old(self)),
            pos < old(self).ings().len() ==> (r is Ok && final(self).ings() == old(self).ings().update(
                pos as int,
                (Ingredient { reference_target_text: text, ..old(self).ings()[pos as int] }),
            ) && final(self).sel() == old(self).sel() && final(self).ratio_spec() == old(self).ratio_spec() && final(self).editing_spec() == old(self).editing_spec()),
    {
        if pos >= self.ingredients.len() {
            return Err(OutOfRange);
        }
        self.ingredients[pos].reference_target_text = text;
        Ok(())
    }

    /// Switch editing mode on or off.
    pub fn set_editing(&mut self, on: bool)
        requires
            old(self).wf(),
        ensures
            final(self).wf(),
            final(self).editing_spec() == on,
            final(self).ings() == old(self).ings(),
            final(self).sel() == old(self).sel(),
            final(self).ratio_spec() == old(self).ratio_spec(),
    {
        self.editing = on;
    }

    /// Select the row at `pos` as the scaling reference.
    pub fn set_selected(&mut self, pos: usize) -> (r: Result<(), OutOfRange>)
        requires
            old(self).wf(),
        ensures
            final(self).wf(),
            pos >= old(self).ings().len() ==> (r matches Err(e) && e == OutOfRange && *final(self)
                == *old(self)),
            pos < old(self).ings().len() ==> (r is Ok && final(self).sel() == Some(pos) && final(self).ings() == old(self).ings() && final(self).ratio_spec() == old(self).ratio_spec()
                && final(self).editing_spec() == old(self).editing_spec()),
    {
        if pos >= self.ingredients.len() {
            return Err(OutOfRange);
        }
        self.selected = Some(pos);
        Ok(())
    }

    /// Clear the reference selection.
    pub fn clear_selected(&mut self)
        requires
            old(self).wf(),
        ensures
            final(self).wf(),
            final(self).sel() is None,
            final(self).ings() == old(self).ings(),
            final(self).ratio_spec() == old(self).ratio_spec(),
            final(self).editing_spec() == old(self).editing_spec(),
    {
        self.selected = None;
    }

    /// One engine pass. Off, or with nothing selected, it changes nothing.
    /// On, it seeds the reference's target when empty, recomputes the ratio
    /// from the reference row (holding it on a zero or unparseable original),
    /// and rewrites every other row's scaled display text, freezing it when
    /// that row's amount text fails to parse.
    pub fn recompute(&mut self)
        requires
            old(self).wf(),
        ensures
            final(self).wf(),
            final(self).editing_spec() == old(self).editing_spec(),
            final(self).sel() == old(self).sel(),
            final(self).ings().len() == old(self).ings().len(),
            !(old(self).editing_spec() && old(self).sel() is Some) ==> *final(self) == *old(self),
            old(self).editing_spec() && old(self).sel() is Some ==> ({
                let k = old(self).sel()->Some_0;
                let before = old(self).ings();
                let r1 = ratio_after(
                    old(self).ratio_spec(),
                    before[k as int].amount_text@,
                    seeded_target(before[k as int]),
                );
                &&& final(self).ratio_spec() == r1
                &&& ref_row_rel(before[k as int], final(self).ings()[k as int])
                &&& forall|j: int|
                    0 <= j < before.len() && j != k ==> other_row_rel(
                        before[j],
                        #[trigger] final(self).ings()[j],
                        r1,
                    )
            }),
    {
        if !self.editing {
            return;
        }
        let k = match self.selected {
            None => { return; },
            Some(k) => k,
        };
        let ghost before = self.ingredients@;
        // Seed the reference target from the reference's own amount text.
        if self.ingredients[k].reference_target_text.as_str().is_empty() {
            let seed = self.ingredients[k].amount_text.clone();
            self.ingredients[k].reference_target_text = seed;
        }
        assert(self.ingredients@[k as int].reference_target_text@ == seeded_target(
            before[k as int],
        ));
        // Recompute the ratio from the reference row.
        let o = parse_amount(self.ingredients[k].amount_text.as_str());
        let t = parse_amount(self.ingredients[k].reference_target_text.as_str());
        proof {
            lemma_parse_bound(before[k as int].amount_text@);
            lemma_parse_bound(seeded_target(before[k as int]));
        }
        match (o, t) {
            (Some(ov), Some(tv)) => {
                if ov > 0 {
                    self.ratio = Ratio { num: tv, den: ov };
                }
            },
            _ => {},
        }
        if let Some(ov) = o {
            self.ingredients[k].amount = Some(ov);
        }
        let ghost r1 = self.ratio;
        let ghost mid = self.ingredients@;
        assert(ref_row_rel(before[k as int], mid[k as int]));
        assert(forall|t: int| 0 <= t < mid.len() && t != k ==> mid[t] == before[t]);
        // Derive every other row's scaled display text.
        let n = self.ingredients.len();
        let mut j: usize = 0;
        while j < n
            invariant
                self.wf(),
                n == self.ings().len(),
                j <= n,
                before.len() == n,
                k < n,
                self.ratio == r1,
                self.selected == Some(k),
                self.editing,
                ref_row_rel(before[k as int], self.ings()[k as int]),
                forall|t: int|
                    0 <= t < j && t != k ==> other_row_rel(
                        before[t],
                        #[trigger] self.ings()[t],
                        r1,
                    ),
                forall|t: int| j <= t < n && t != k ==> self.ings()[t] == before[t],
            decreases n - j,
        {
            if j != k {
                match parse_amount(self.ingredients[j].amount_text.as_str()) {
                    Some(a) => {
                        proof {
                            lemma_parse_bound(before[j as int].amount_text@);
                        }
                        self.ingredients[j].amount = Some(a);
                        let units = mul_div_units(self.ratio, a);
                        let txt = format_amount(units);
                        self.ingredients[j].scaled_amount_text = txt;
                    },
                    None => {},
                }
            }
            j = j + 1;
        }
    }
}

/// Validity of restored session parts.
pub open spec fn restore_ok(ings: Seq<Ingredient>, selected: Option<usize>, ratio: Ratio) -> bool {
    &&& (selected matches Some(k) ==> k < ings.len())
    &&& 1 <= ratio.den < MAX_UNITS
    &&& ratio.num < MAX_UNITS
    &&& forall|i: int|
        0 <= i < ings.len() ==> (#[trigger] ings[i].amount matches Some(a) ==> a < MAX_UNITS)
}

/// The floor of `ratio * a` in fixed-point units, computed exactly.
fn mul_div_units(r: Ratio, a: u64) -> (u: u128)
    requires
        1 <= r.den < MAX_UNITS,
        r.num < MAX_UNITS,
        a < MAX_UNITS,
    ensures
        u as nat == scaled_units(r, a),
{
    proof {
        assert((r.num as int) * (a as int) <= u128::MAX as int) by (nonlinear_arith)
            requires
                r.num < MAX_UNITS,
                a < MAX_UNITS,
        ;
    }
    ((r.num as u128) * (a as u128)) / (r.den as u128)
}

/// Law: a valid ratio applied to a parsed amount yields the floor of
/// `ratio * amount`; when the product divides evenly the derived value is
/// exactly `ratio * amount`, and its rendered text parses back to it.
pub proof fn lemma_scaled_amount_exact(r: Ratio, a: u64)
    requires
        1 <= r.den < MAX_UNITS,
        r.num < MAX_UNITS,
        a < MAX_UNITS,
        ((r.num * a) as nat) % (r.den as nat) == 0,
    ensures
        scaled_units(r, a) * r.den == r.num * a,
        scaled_units(r, a) < MAX_UNITS ==> parse_spec(format_spec(scaled_units(r, a))) == Some(
            (scaled_units(r, a)) as u64,
        ),
{
    let p = (r.num * a) as nat;
    let q = scaled_units(r, a);
    let d = r.den as nat;
    lemma_fundamental_div_mod(p as int, r.den as int);
    assert(p == d * q + p % d);
    assert(q * d == d * q) by (nonlinear_arith);
    if scaled_units(r, a) < MAX_UNITS {
        lemma_parse_format(scaled_units(r, a));
    }
}

/// Law: the derived value is always the floor of `ratio * amount`: it never
/// overshoots, and misses exactness by less than one denominator part.
pub proof fn lemma_scaled_amount_bounds(r: Ratio, a: u64)
    requires
        1 <= r.den,
    ensures
        scaled_units(r, a) * r.den <= r.num * a,
        r.num * a < (scaled_units(r, a) + 1) * r.den,
{
    let p = (r.num * a) as nat;
    let q = scaled_units(r, a);
    let d = r.den as nat;
    lemma_fundamental_div_mod(p as int, r.den as int);
    lemma_mod_division_less_than_divisor(p as int, r.den as int);
    assert(p == d * q + p % d);
    assert(p % d < d);
    assert(q * d == d * q) by (nonlinear_arith);
    assert((q + 1) * d == q * d + d) by (nonlinear_arith);
}

/// Law: a unit ratio (equal numerator and denominator, as produced by a
/// freshly seeded target) leaves every parsed amount unchanged: the derived
/// text parses back to the row's own parsed amount.
pub proof fn lemma_unit_ratio_identity(a: u64, text: Seq<char>, prev: Seq<char>)
    requires
        0 < a < MAX_UNITS,
        parse_spec(text) is Some,
    ensures
        parse_spec(scaled_text_after((Ratio { num: a, den: a }), text, prev)) == parse_spec(text),
{
    let b = parse_spec(text)->Some_0;
    lemma_parse_bound(text);
    let r = Ratio { num: a, den: a };
    assert(scaled_units(r, b) == b) by {
        lemma_div_by_multiple(b as int, a as int);
        assert((a * b) as int == (b as int) * (a as int)) by (nonlinear_arith);
    }
    lemma_parse_format(b as nat);
}

/// Law: entering On mode with an empty target seeds the target from the
/// reference's own amount text, and the recomputed ratio is then one
/// (numerator equal to denominator) whenever that amount parses and is not
/// zero.
pub proof fn lemma_seed_unit_ratio(r0: Ratio, i: Ingredient)
    requires
        i.reference_target_text@.len() == 0,
        parse_spec(i.amount_text@) matches Some(o) && o > 0,
    ensures
        seeded_target(i) == i.amount_text@,
        ratio_after(r0, i.amount_text@, seeded_target(i)).num == ratio_after(
            r0,
            i.amount_text@,
            seeded_target(i),
        ).den,
{
}

/// Law: entering On mode with no prior target, over a reference row whose
/// own amount parses and is not zero, yields a unit ratio, and every other
/// row's recomputed scaled text then parses back to that row's own parsed
/// amount: the first pass is a no-op scale.
pub proof fn lemma_enter_on_identity(r0: Ratio, refrow: Ingredient, other: Ingredient)
    requires
        refrow.reference_target_text@.len() == 0,
        parse_spec(refrow.amount_text@) matches Some(o) && o > 0,
        parse_spec(other.amount_text@) is Some,
    ensures
        ({
            let r1 = ratio_after(r0, refrow.amount_text@, seeded_target(refrow));
            parse_spec(scaled_text_after(r1, other.amount_text@, other.scaled_amount_text@))
                == parse_spec(other.amount_text@)
        }),
{
    lemma_parse_bound(refrow.amount_text@);
    let o = parse_spec(refrow.amount_text@)->Some_0;
    lemma_unit_ratio_identity(o, other.amount_text@, other.scaled_amount_text@);
}

/// Law: a reference whose own amount parses to zero, or does not parse at
/// all, never changes the held ratio: division by zero is never performed and
/// nothing undefined reaches the other rows.
pub proof fn lemma_zero_reference_holds_ratio(r: Ratio, amount_text: Seq<char>, target_text: Seq<char>)
    requires
        parse_spec(amount_text) == Some(0u64) || parse_spec(amount_text) is None,
    ensures
        ratio_after(r, amount_text, target_text) == r,
{
}

} // verus!
