//! Whole-session persistence: a self-contained text framing of the session.
//!
//! Every number is written as twenty zero-padded decimal digits and every
//! string is written length first, so the record is parsed back without
//! searching. Decoding validates the parts and rebuilds the session, and a
//! decoded record provably reproduces the encoded one.

use vstd::prelude::*;
use vstd::string::StrSliceExecFns;
use crate::session::Ingredient;
use crate::session::Ratio;
use crate::session::RecipeSession;
use crate::session::restore_ok;
use crate::text::MAX_UNITS;
use crate::text::all_digits;
use crate::text::digit_char_of;
use crate::text::digits_val;
use crate::text::exec_digit;
use crate::text::is_digit;
use crate::text::lemma_digits_val_bound_sub;
use crate::text::lemma_digits_val_snoc;
use crate::text::lemma_pad_digits;
use crate::text::lemma_pow10_4;
use crate::text::pad_digits;
use crate::text::pow10;
use crate::text::string_from_chars;

verus! {

/// The ghost image of one ingredient row: its five texts and parsed amount.
#[verifier::ext_equal]
pub struct IngView {
    pub name: Seq<char>,
    pub amount_text: Seq<char>,
    pub unit: Seq<char>,
    pub reference_target_text: Seq<char>,
    pub scaled_amount_text: Seq<char>,
    pub amount: Option<u64>,
}

/// The ghost image of a whole session.
#[verifier::ext_equal]
pub struct SessionView {
    pub ings: Seq<IngView>,
    pub selected: Option<usize>,
    pub ratio: Ratio,
    pub editing: bool,
}

pub open spec fn view_of(i: Ingredient) -> IngView {
    IngView {
        name: i.name@,
        amount_text: i.amount_text@,
        unit: i.unit@,
        reference_target_text: i.reference_target_text@,
        scaled_amount_text: i.scaled_amount_text@,
        amount: i.amount,
    }
}

pub open spec fn session_view(s: RecipeSession) -> SessionView {
    SessionView {
        ings: Seq::new(s.ings().len(), |j: int| view_of(s.ings()[j])),
        selected: s.sel(),
        ratio: s.ratio_spec(),
        editing: s.editing_spec(),
    }
}

/// Machine-representable row image: each text's length fits a `u64`.
pub open spec fn ing_wf(g: IngView) -> bool {
    &&& g.name.len() <= u64::MAX
    &&& g.amount_text.len() <= u64::MAX
    &&& g.unit.len() <= u64::MAX
    &&& g.reference_target_text.len() <= u64::MAX
    &&& g.scaled_amount_text.len() <= u64::MAX
}

/// Machine-representable session image.
pub open spec fn view_wf(v: SessionView) -> bool {
    &&& v.ings.len() <= u64::MAX
    &&& forall|j: int| 0 <= j < v.ings.len() ==> ing_wf(#[trigger] v.ings[j])
}

/// Validity of a decoded session image, as `RecipeSession::restore` checks it.
pub open spec fn view_ok(v: SessionView) -> bool {
    &&& (v.selected matches Some(k) ==> k < v.ings.len())
    &&& 1 <= v.ratio.den < MAX_UNITS
    &&& v.ratio.num < MAX_UNITS
    &&& forall|j: int|
        0 <= j < v.ings.len() ==> (#[trigger] v.ings[j].amount matches Some(a) ==> a < MAX_UNITS)
}

// ---------------------------------------------------------------------------
// The record grammar.
// ---------------------------------------------------------------------------

pub open spec fn enc_flag(b: bool) -> Seq<char> {
    if b {
        seq!['1']
    } else {
        seq!['0']
    }
}

/// A number as exactly twenty zero-padded decimal digits.
pub open spec fn enc20(n: nat) -> Seq<char> {
    pad_digits(n, 20)
}

pub open spec fn enc_opt(o: Option<u64>) -> Seq<char> {
    match o {
        Some(x) => enc_flag(true) + enc20(x as nat),
        None => enc_flag(false) + enc20(0),
    }
}

pub open spec fn enc_str(t: Seq<char>) -> Seq<char> {
    enc20(t.len()) + t
}

pub open spec fn enc_ing(g: IngView) -> Seq<char> {
    enc_str(g.name) + (enc_str(g.amount_text) + (enc_str(g.unit) + (enc_str(
        g.reference_target_text,
    ) + (enc_str(g.scaled_amount_text) + enc_opt(g.amount)))))
}

pub open spec fn enc_ings(gs: Seq<IngView>) -> Seq<char>
    decreases gs.len(),
{
    if gs.len() == 0 {
        Seq::empty()
    } else {
        enc_ing(gs[0]) + enc_ings(gs.drop_first())
    }
}

pub open spec fn sel_as_u64(o: Option<usize>) -> Option<u64> {
    match o {
        Some(k) => Some(k as u64),
        None => None,
    }
}

pub open spec fn encode_spec(v: SessionView) -> Seq<char> {
    enc_flag(v.editing) + (enc_opt(sel_as_u64(v.selected)) + (enc20(v.ratio.num as nat) + (enc20(
        v.ratio.den as nat,
    ) + (enc20(v.ings.len()) + enc_ings(v.ings)))))
}

// ---------------------------------------------------------------------------
// The record parser, at the specification level.
// ---------------------------------------------------------------------------

pub open spec fn sdec_flag(s: Seq<char>, i: int) -> Option<(bool, int)> {
    if 0 <= i < s.len() && (s[i] == '0' || s[i] == '1') {
        Some((s[i] == '1', i + 1))
    } else {
        None
    }
}

pub open spec fn sdec20(s: Seq<char>, i: int) -> Option<(u64, int)> {
    if 0 <= i && i + 20 <= s.len() && all_digits(s.subrange(i, i + 20)) && digits_val(
        s.subrange(i, i + 20),
    ) <= u64::MAX {
        Some(((digits_val(s.subrange(i, i + 20)) as u64), i + 20))
    } else {
        None
    }
}

pub open spec fn sdec_opt(s: Seq<char>, i: int) -> Option<(Option<u64>, int)> {
    match sdec_flag(s, i) {
        Some((b, j)) => match sdec20(s, j) {
            Some((x, e)) => Some(
                ((if b {
                    Some(x)
                } else {
                    None
                }), e),
            ),
            None => None,
        },
        None => None,
    }
}

pub open spec fn sdec_str(s: Seq<char>, i: int) -> Option<(Seq<char>, int)> {
    match sdec20(s, i) {
        Some((l, j)) => if j + l <= s.len() {
            Some((s.subrange(j, j + l), j + l))
        } else {
            None
        },
        None => None,
    }
}

pub open spec fn sdec_ing(s: Seq<char>, i: int) -> Option<(IngView, int)> {
    match sdec_str(s, i) {
        Some((name, i1)) => match sdec_str(s, i1) {
            Some((amount_text, i2)) => match sdec_str(s, i2) {
                Some((unit, i3)) => match sdec_str(s, i3) {
                    Some((reference_target_text, i4)) => match sdec_str(s, i4) {
                        Some((scaled_amount_text, i5)) => match sdec_opt(s, i5) {
                            Some((amount, e)) => Some(
                                (
                                    (IngView {
                                        name,
                                        amount_text,
                                        unit,
                                        reference_target_text,
                                        scaled_amount_text,
                                        amount,
                                    }),
                                    e,
                                ),
                            ),
                            None => None,
                        },
                        None => None,
                    },
                    None => None,
                },
                None => None,
            },
            None => None,
        },
        None => None,
    }
}

pub open spec fn sdec_ings(s: Seq<char>, i: int, c: nat) -> Option<(Seq<IngView>, int)>
    decreases c,
{
    if c == 0 {
        Some((Seq::empty(), i))
    } else {
        match sdec_ing(s, i) {
            Some((g, j)) => match sdec_ings(s, j, (c - 1) as nat) {
                Some((rest, e)) => Some((seq![g] + rest, e)),
                None => None,
            },
            None => None,
        }
    }
}

pub open spec fn sel_from(o: Option<u64>) -> Option<Option<usize>> {
    match o {
        Some(x) => if x <= usize::MAX as u64 {
            Some(Some(x as usize))
        } else {
            None
        },
        None => Some(None),
    }
}

pub open spec fn sdec_session(s: Seq<char>) -> Option<SessionView> {
    match sdec_flag(s, 0) {
        Some((editing, i1)) => match sdec_opt(s, i1) {
            Some((selraw, i2)) => match sdec20(s, i2) {
                Some((num, i3)) => match sdec20(s, i3) {
                    Some((den, i4)) => match sdec20(s, i4) {
                        Some((cnt, i5)) => match sdec_ings(s, i5, cnt as nat) {
                            Some((gs, e)) => if e == s.len() {
                                match sel_from(selraw) {
                                    Some(selected) => {
                                        let v = SessionView {
                                            ings: gs,
                                            selected,
                                            ratio: (Ratio { num, den }),
                                            editing,
                                        };
                                        if view_ok(v) {
                                            Some(v)
                                        } else {
                                            None
                                        }
                                    },
                                    None => None,
                                }
                            } else {
                                None
                            },
                            None => None,
                        },
                        None => None,
                    },
                    None => None,
                },
                None => None,
            },
            None => None,
        },
        None => None,
    }
}

// ---------------------------------------------------------------------------
// Arithmetic groundwork.
// ---------------------------------------------------------------------------

pub proof fn lemma_pow10_20()
    ensures
        pow10(20) == 100000000000000000000,
{
    lemma_pow10_4();
    assert(pow10(5) == 10 * pow10(4));
    assert(pow10(6) == 10 * pow10(5));
    assert(pow10(7) == 10 * pow10(6));
    assert(pow10(8) == 10 * pow10(7));
    assert(pow10(9) == 10 * pow10(8));
    assert(pow10(10) == 10 * pow10(9));
    assert(pow10(11) == 10 * pow10(10));
    assert(pow10(12) == 10 * pow10(11));
    assert(pow10(13) == 10 * pow10(12));
    assert(pow10(14) == 10 * pow10(13));
    assert(pow10(15) == 10 * pow10(14));
    assert(pow10(16) == 10 * pow10(15));
    assert(pow10(17) == 10 * pow10(16));
    assert(pow10(18) == 10 * pow10(17));
    assert(pow10(19) == 10 * pow10(18));
    assert(pow10(20) == 10 * pow10(19));
}

/// `pad_digits` always renders exactly its width.
pub proof fn lemma_pad_len(n: nat, w: nat)
    ensures
        pad_digits(n, w).len() == w,
    decreases w,
{
    if w > 0 {
        lemma_pad_len(n / 10, (w - 1) as nat);
    }
}

/// Powers of ten grow with the exponent.
pub proof fn lemma_pow10_le(a: nat, b: nat)
    requires
        a <= b,
    ensures
        pow10(a) <= pow10(b),
    decreases b,
{
    if a < b {
        lemma_pow10_le(a, (b - 1) as nat);
        assert(pow10(b) == 10 * pow10((b - 1) as nat));
    }
}

/// A window holding a concatenation splits into its two parts.
proof fn lemma_split(s: Seq<char>, i: int, a: Seq<char>, b: Seq<char>)
    requires
        0 <= i,
        i + a.len() + b.len() <= s.len(),
        s.subrange(i, i + a.len() + b.len()) == a + b,
    ensures
        s.subrange(i, i + a.len()) == a,
        s.subrange(i + a.len(), i + a.len() + b.len()) == b,
{
    let w = s.subrange(i, i + a.len() + b.len());
    assert(s.subrange(i, i + a.len()) =~= a) by {
        assert forall|j: int| 0 <= j < a.len() implies s.subrange(i, i + a.len())[j] == a[j] by {
            assert(w[j] == s[i + j]);
            assert((a + b)[j] == a[j]);
        }
    }
    assert(s.subrange(i + a.len(), i + a.len() + b.len()) =~= b) by {
        assert forall|j: int|
            0 <= j < b.len() implies s.subrange(i + a.len(), i + a.len() + b.len())[j] == b[j] by {
            assert(w[a.len() + j] == s[i + a.len() + j]);
            assert((a + b)[a.len() + j] == b[j]);
        }
    }
}

// ---------------------------------------------------------------------------
// Reading back what was written.
// ---------------------------------------------------------------------------

proof fn lemma_rt_flag(s: Seq<char>, i: int, b: bool)
    requires
        0 <= i,
        i + 1 <= s.len(),
        s.subrange(i, i + 1) == enc_flag(b),
    ensures
        sdec_flag(s, i) == Some((b, i + 1)),
{
    assert(s[i] == s.subrange(i, i + 1)[0]);
}

proof fn lemma_rt_20(s: Seq<char>, i: int, nv: u64)
    requires
        0 <= i,
        i + 20 <= s.len(),
        s.subrange(i, i + 20) == enc20(nv as nat),
    ensures
        sdec20(s, i) == Some((nv, i + 20)),
{
    lemma_pow10_20();
    lemma_pad_digits(nv as nat, 20);
}

proof fn lemma_rt_opt(s: Seq<char>, i: int, o: Option<u64>)
    requires
        0 <= i,
        i + 21 <= s.len(),
        s.subrange(i, i + 21) == enc_opt(o),
    ensures
        sdec_opt(s, i) == Some((o, i + 21)),
{
    lemma_pad_len(0, 20);
    match o {
        Some(x) => {
            lemma_pad_len(x as nat, 20);
            lemma_split(s, i, enc_flag(true), enc20(x as nat));
            lemma_rt_flag(s, i, true);
            lemma_rt_20(s, i + 1, x);
        },
        None => {
            lemma_split(s, i, enc_flag(false), enc20(0));
            lemma_rt_flag(s, i, false);
            lemma_rt_20(s, i + 1, 0);
        },
    }
}

proof fn lemma_rt_str(s: Seq<char>, i: int, t: Seq<char>)
    requires
        0 <= i,
        t.len() <= u64::MAX,
        i + 20 + t.len() <= s.len(),
        s.subrange(i, i + 20 + t.len()) == enc_str(t),
    ensures
        sdec_str(s, i) == Some((t, i + 20 + t.len())),
{
    lemma_pad_len(t.len(), 20);
    lemma_split(s, i, enc20(t.len()), t);
    assert(enc20(t.len()) == enc20((t.len() as u64) as nat));
    lemma_rt_20(s, i, t.len() as u64);
}

proof fn lemma_rt_ing(s: Seq<char>, i: int, g: IngView)
    requires
        0 <= i,
        ing_wf(g),
        i + enc_ing(g).len() <= s.len(),
        s.subrange(i, i + enc_ing(g).len()) == enc_ing(g),
    ensures
        sdec_ing(s, i) == Some((g, i + enc_ing(g).len())),
{
    lemma_pad_len(g.name.len(), 20);
    lemma_pad_len(g.amount_text.len(), 20);
    lemma_pad_len(g.unit.len(), 20);
    lemma_pad_len(g.reference_target_text.len(), 20);
    lemma_pad_len(g.scaled_amount_text.len(), 20);
    lemma_pad_len(0, 20);
    match g.amount {
        Some(x) => {
            lemma_pad_len(x as nat, 20);
        },
        None => {},
    }
    let p1 = enc_str(g.name);
    let r1 = enc_str(g.amount_text) + (enc_str(g.unit) + (enc_str(g.reference_target_text)
        + (enc_str(g.scaled_amount_text) + enc_opt(g.amount))));
    lemma_split(s, i, p1, r1);
    lemma_rt_str(s, i, g.name);
    let i1 = i + p1.len();
    let p2 = enc_str(g.amount_text);
    let r2 = enc_str(g.unit) + (enc_str(g.reference_target_text) + (enc_str(g.scaled_amount_text)
        + enc_opt(g.amount)));
    lemma_split(s, i1, p2, r2);
    lemma_rt_str(s, i1, g.amount_text);
    let i2 = i1 + p2.len();
    let p3 = enc_str(g.unit);
    let r3 = enc_str(g.reference_target_text) + (enc_str(g.scaled_amount_text) + enc_opt(
        g.amount,
    ));
    lemma_split(s, i2, p3, r3);
    lemma_rt_str(s, i2, g.unit);
    let i3 = i2 + p3.len();
    let p4 = enc_str(g.reference_target_text);
    let r4 = enc_str(g.scaled_amount_text) + enc_opt(g.amount);
    lemma_split(s, i3, p4, r4);
    lemma_rt_str(s, i3, g.reference_target_text);
    let i4 = i3 + p4.len();
    let p5 = enc_str(g.scaled_amount_text);
    let r5 = enc_opt(g.amount);
    lemma_split(s, i4, p5, r5);
    lemma_rt_str(s, i4, g.scaled_amount_text);
    let i5 = i4 + p5.len();
    lemma_rt_opt(s, i5, g.amount);
}

proof fn lemma_rt_ings(s: Seq<char>, i: int, gs: Seq<IngView>)
    requires
        0 <= i,
        forall|j: int| 0 <= j < gs.len() ==> ing_wf(#[trigger] gs[j]),
        i + enc_ings(gs).len() <= s.len(),
        s.subrange(i, i + enc_ings(gs).len()) == enc_ings(gs),
    ensures
        sdec_ings(s, i, gs.len()) == Some((gs, i + enc_ings(gs).len())),
    decreases gs.len(),
{
    if gs.len() == 0 {
        assert(gs =~= Seq::<IngView>::empty());
    } else {
        let g0 = gs[0];
        let rest = gs.drop_first();
        lemma_split(s, i, enc_ing(g0), enc_ings(rest));
        lemma_rt_ing(s, i, g0);
        let j = i + enc_ing(g0).len();
        assert(forall|t: int| 0 <= t < rest.len() ==> ing_wf(#[trigger] rest[t])) by {
            assert(forall|t: int| 0 <= t < rest.len() ==> rest[t] == gs[t + 1]);
        }
        lemma_rt_ings(s, j, rest);
        assert(seq![g0] + rest =~= gs);
    }
}

/// Law: a well-formed session image, once framed, is parsed back whole:
/// decoding the encoding reproduces the same ordered ingredient list, the
/// same selection, ratio and mode flag.
pub proof fn lemma_codec_roundtrip(v: SessionView)
    requires
        view_wf(v),
        view_ok(v),
    ensures
        sdec_session(encode_spec(v)) == Some(v),
{
    let s = encode_spec(v);
    lemma_pad_len(v.ratio.num as nat, 20);
    lemma_pad_len(v.ratio.den as nat, 20);
    lemma_pad_len(v.ings.len(), 20);
    lemma_pad_len(0, 20);
    match v.selected {
        Some(k) => {
            lemma_pad_len((k as u64) as nat, 20);
        },
        None => {},
    }
    assert(s.subrange(0, s.len() as int) =~= s);
    let p1 = enc_flag(v.editing);
    let r1 = enc_opt(sel_as_u64(v.selected)) + (enc20(v.ratio.num as nat) + (enc20(
        v.ratio.den as nat,
    ) + (enc20(v.ings.len()) + enc_ings(v.ings))));
    lemma_split(s, 0, p1, r1);
    lemma_rt_flag(s, 0, v.editing);
    let i1 = p1.len() as int;
    let p2 = enc_opt(sel_as_u64(v.selected));
    let r2 = enc20(v.ratio.num as nat) + (enc20(v.ratio.den as nat) + (enc20(v.ings.len())
        + enc_ings(v.ings)));
    lemma_split(s, i1, p2, r2);
    lemma_rt_opt(s, i1, sel_as_u64(v.selected));
    let i2 = i1 + p2.len();
    let p3 = enc20(v.ratio.num as nat);
    let r3 = enc20(v.ratio.den as nat) + (enc20(v.ings.len()) + enc_ings(v.ings));
    lemma_split(s, i2, p3, r3);
    lemma_rt_20(s, i2, v.ratio.num);
    let i3 = i2 + 20;
    let p4 = enc20(v.ratio.den as nat);
    let r4 = enc20(v.ings.len()) + enc_ings(v.ings);
    lemma_split(s, i3, p4, r4);
    lemma_rt_20(s, i3, v.ratio.den);
    let i4 = i3 + 20;
    let p5 = enc20(v.ings.len());
    let r5 = enc_ings(v.ings);
    lemma_split(s, i4, p5, r5);
    assert(enc20(v.ings.len()) == enc20((v.ings.len() as u64) as nat));
    lemma_rt_20(s, i4, v.ings.len() as u64);
    let i5 = i4 + 20;
    lemma_rt_ings(s, i5, v.ings);
    assert(i5 + enc_ings(v.ings).len() == s.len());
    match v.selected {
        Some(k) => {
            assert(sel_from(sel_as_u64(v.selected)) == Some(Some(k)));
        },
        None => {},
    }
}

// ---------------------------------------------------------------------------
// The executable writer.
// ---------------------------------------------------------------------------

fn push_pad(v: &mut Vec<char>, n: u64, w: usize)
    ensures
        final(v)@ == old(v)@ + pad_digits(n as nat, w as nat),
    decreases w,
{
    if w == 0 {
        assert(v@ =~= old(v)@ + pad_digits(n as nat, 0));
    } else {
        push_pad(v, n / 10, w - 1);
        v.push(digit_char_of(n % 10));
        assert(v@ =~= old(v)@ + pad_digits(n as nat, w as nat));
    }
}

fn push_flag(v: &mut Vec<char>, b: bool)
    ensures
        final(v)@ == old(v)@ + enc_flag(b),
{
    if b {
        v.push('1');
    } else {
        v.push('0');
    }
    assert(v@ =~= old(v)@ + enc_flag(b));
}

fn push_opt(v: &mut Vec<char>, o: Option<u64>)
    ensures
        final(v)@ == old(v)@ + enc_opt(o),
{
    match o {
        Some(x) => {
            push_flag(v, true);
            push_pad(v, x, 20);
        },
        None => {
            push_flag(v, false);
            push_pad(v, 0, 20);
        },
    }
    assert(v@ =~= old(v)@ + enc_opt(o));
}

fn push_chars(v: &mut Vec<char>, t: &String)
    ensures
        final(v)@ == old(v)@ + t@,
{
    let s = t.as_str();
    let n = s.unicode_len();
    let mut j: usize = 0;
    while j < n
        invariant
            n == t@.len(),
            s@ == t@,
            j <= n,
            v@ == old(v)@ + t@.subrange(0, j as int),
        decreases n - j,
    {
        let c = s.get_char(j);
        v.push(c);
        assert(v@ =~= old(v)@ + t@.subrange(0, j + 1));
        j = j + 1;
    }
    assert(t@.subrange(0, n as int) =~= t@);
}

fn push_enc_str(v: &mut Vec<char>, t: &String)
    ensures
        final(v)@ == old(v)@ + enc_str(t@),
{
    let n = t.as_str().unicode_len();
    push_pad(v, n as u64, 20);
    push_chars(v, t);
    assert(v@ =~= old(v)@ + enc_str(t@));
}

/// `enc_ings` grows one encoded row at a time.
proof fn lemma_enc_ings_snoc(gs: Seq<IngView>)
    requires
        gs.len() > 0,
    ensures
        enc_ings(gs) == enc_ings(gs.drop_last()) + enc_ing(gs.last()),
    decreases gs.len(),
{
    if gs.len() == 1 {
        assert(gs.drop_last() =~= Seq::<IngView>::empty());
        assert(gs.drop_first() =~= Seq::<IngView>::empty());
        assert(enc_ings(gs) == enc_ing(gs[0]) + enc_ings(gs.drop_first()));
        assert(enc_ing(gs[0]) + Seq::<char>::empty() =~= enc_ing(gs[0]));
        assert(Seq::<char>::empty() + enc_ing(gs.last()) =~= enc_ing(gs.last()));
    } else {
        let d = gs.drop_first();
        lemma_enc_ings_snoc(d);
        assert(d.last() == gs.last());
        assert(gs.drop_last().drop_first() =~= d.drop_last());
        assert(gs.drop_last().len() > 0);
        assert(gs.drop_last()[0] == gs[0]);
        assert(enc_ings(gs.drop_last()) == enc_ing(gs[0]) + enc_ings(d.drop_last()));
        assert(enc_ing(gs[0]) + (enc_ings(d.drop_last()) + enc_ing(gs.last())) =~= (enc_ing(gs[0])
            + enc_ings(d.drop_last())) + enc_ing(gs.last()));
    }
}

/// Frame the whole session as one text record.
pub fn encode(sess: &RecipeSession) -> (r: String)
    ensures
        r@ == encode_spec(session_view(*sess)),
{
    let ghost sv = session_view(*sess);
    let mut v: Vec<char> = Vec::new();
    push_flag(&mut v, sess.editing());
    match sess.selected() {
        Some(k) => push_opt(&mut v, Some(k as u64)),
        None => push_opt(&mut v, None),
    }
    let rt = sess.ratio();
    push_pad(&mut v, rt.num, 20);
    push_pad(&mut v, rt.den, 20);
    let n = sess.len();
    push_pad(&mut v, n as u64, 20);
    let ghost head = v@;
    let mut j: usize = 0;
    while j < n
        invariant
            n == sess.ings().len(),
            sv == session_view(*sess),
            sv.ings.len() == n,
            j <= n,
            v@ == head + enc_ings(sv.ings.take(j as int)),
        decreases n - j,
    {
        let row = match sess.get(j) {
            Ok(row) => row,
            Err(_) => {
                proof {
                    assert(false);
                }
                return String::new();
            },
        };
        let ghost vpre = v@;
        push_enc_str(&mut v, &row.name);
        push_enc_str(&mut v, &row.amount_text);
        push_enc_str(&mut v, &row.unit);
        push_enc_str(&mut v, &row.reference_target_text);
        push_enc_str(&mut v, &row.scaled_amount_text);
        push_opt(&mut v, row.amount);
        proof {
            assert(v@ =~= vpre + enc_ing(view_of(sess.ings()[j as int])));
            assert(sv.ings[j as int] == view_of(sess.ings()[j as int]));
            lemma_enc_ings_snoc(sv.ings.take(j + 1));
            assert(sv.ings.take(j + 1).drop_last() =~= sv.ings.take(j as int));
            assert(sv.ings.take(j + 1).last() == sv.ings[j as int]);
            assert(v@ =~= head + enc_ings(sv.ings.take(j + 1)));
        }
        j = j + 1;
    }
    proof {
        assert(sv.ings.take(n as int) =~= sv.ings);
        assert(v@ =~= encode_spec(sv));
    }
    string_from_chars(v)
}

// ---------------------------------------------------------------------------
// The executable reader.
// ---------------------------------------------------------------------------

fn read_flag(s: &str, i: usize) -> (r: Option<(bool, usize)>)
    ensures
        r matches Some(q) ==> sdec_flag(s@, i as int) == Some((q.0, q.1 as int)),
        r is None ==> sdec_flag(s@, i as int) is None,
{
    let n = s.unicode_len();
    if i >= n {
        return None;
    }
    let c = s.get_char(i);
    if c == '1' {
        Some((true, i + 1))
    } else if c == '0' {
        Some((false, i + 1))
    } else {
        None
    }
}

fn read20(s: &str, i: usize) -> (r: Option<(u64, usize)>)
    ensures
        r matches Some(q) ==> sdec20(s@, i as int) == Some((q.0, q.1 as int)),
        r is None ==> sdec20(s@, i as int) is None,
{
    let n = s.unicode_len();
    if n < 20 || i > n - 20 {
        return None;
    }
    let mut v: u128 = 0;
    let mut t: usize = 0;
    proof {
        lemma_pow10_20();
    }
    while t < 20
        invariant
            i + 20 <= n,
            n == s@.len(),
            t <= 20,
            pow10(20) == 100000000000000000000,
            forall|j: int| i <= j < i + t ==> is_digit(#[trigger] s@[j]),
            v == digits_val(s@.subrange(i as int, (i + t) as int)),
            v < pow10(20),
        decreases 20 - t,
    {
        let c = s.get_char(i + t);
        match exec_digit(c) {
            None => {
                proof {
                    let w = s@.subrange(i as int, i + 20);
                    assert(w[t as int] == s@[i + t]);
                    assert(!all_digits(w));
                }
                return None;
            },
            Some(d) => {
                proof {
                    lemma_digits_val_snoc(s@, i as int, (i + t) as int);
                    lemma_digits_val_bound_sub(s@, i as int, (i + t + 1) as int);
                    lemma_pow10_le((t + 1) as nat, 20);
                }
                v = v * 10 + (d as u128);
                t = t + 1;
            },
        }
    }
    proof {
        assert(s@.subrange(i as int, (i + t) as int) == s@.subrange(i as int, i + 20));
        assert(all_digits(s@.subrange(i as int, i + 20))) by {
            assert forall|j: int|
                0 <= j < 20 implies is_digit(#[trigger] s@.subrange(i as int, i + 20)[j]) by {
                assert(s@.subrange(i as int, i + 20)[j] == s@[i + j]);
            }
        }
    }
    if v > u64::MAX as u128 {
        return None;
    }
    Some((v as u64, i + 20))
}

fn read_opt(s: &str, i: usize) -> (r: Option<(Option<u64>, usize)>)
    ensures
        r matches Some(q) ==> sdec_opt(s@, i as int) == Some((q.0, q.1 as int)),
        r is None ==> sdec_opt(s@, i as int) is None,
{
    let (b, j) = match read_flag(s, i) {
        Some(p) => p,
        None => {
            return None;
        },
    };
    let (x, e) = match read20(s, j) {
        Some(p) => p,
        None => {
            return None;
        },
    };
    if b {
        Some((Some(x), e))
    } else {
        Some((None, e))
    }
}

fn read_str(s: &str, i: usize) -> (r: Option<(String, usize)>)
    ensures
        r matches Some(q) ==> sdec_str(s@, i as int) == Some((q.0@, q.1 as int)),
        r is None ==> sdec_str(s@, i as int) is None,
{
    let (l, j) = match read20(s, i) {
        Some(p) => p,
        None => {
            return None;
        },
    };
    let n = s.unicode_len();
    if l > (n - j) as u64 {
        return None;
    }
    let e = j + (l as usize);
    let sub = s.substring_char(j, e);
    let owned = sub.to_owned();
    Some((owned, e))
}

fn read_ing(s: &str, i: usize) -> (r: Option<(Ingredient, usize)>)
    ensures
        r matches Some(q) ==> sdec_ing(s@, i as int) == Some((view_of(q.0), q.1 as int)),
        r is None ==> sdec_ing(s@, i as int) is None,
{
    let (name, i1) = match read_str(s, i) {
        Some(p) => p,
        None => {
            return None;
        },
    };
    let (amount_text, i2) = match read_str(s, i1) {
        Some(p) => p,
        None => {
            return None;
        },
    };
    let (unit, i3) = match read_str(s, i2) {
        Some(p) => p,
        None => {
            return None;
        },
    };
    let (reference_target_text, i4) = match read_str(s, i3) {
        Some(p) => p,
        None => {
            return None;
        },
    };
    let (scaled_amount_text, i5) = match read_str(s, i4) {
        Some(p) => p,
        None => {
            return None;
        },
    };
    let (amount, e) = match read_opt(s, i5) {
        Some(p) => p,
        None => {
            return None;
        },
    };
    let ing = Ingredient {
        name,
        amount_text,
        unit,
        reference_target_text,
        scaled_amount_text,
        amount,
    };
    Some((ing, e))
}

/// Parse a framed record back into a session; `None` on any malformed or
/// invalid record, and the caller then falls back to a default session.
pub fn decode(s: &str) -> (r: Option<RecipeSession>)
    ensures
        r matches Some(sess) ==> sess.wf() && sdec_session(s@) == Some(session_view(sess)),
        r is None ==> sdec_session(s@) is None,
{
    let (editing, i1) = match read_flag(s, 0) {
        Some(p) => p,
        None => {
            return None;
        },
    };
    let (selraw, i2) = match read_opt(s, i1) {
        Some(p) => p,
        None => {
            return None;
        },
    };
    let (num, i3) = match read20(s, i2) {
        Some(p) => p,
        None => {
            return None;
        },
    };
    let (den, i4) = match read20(s, i3) {
        Some(p) => p,
        None => {
            return None;
        },
    };
    let (cnt, i5) = match read20(s, i4) {
        Some(p) => p,
        None => {
            return None;
        },
    };
    let mut rows: Vec<Ingredient> = Vec::new();
    let ghost mut gv: Seq<IngView> = Seq::empty();
    let mut idx: usize = i5;
    let mut t: u64 = 0;
    proof {
        match sdec_ings(s@, i5 as int, cnt as nat) {
            Some(p) => {
                assert(Seq::<IngView>::empty() + p.0 =~= p.0);
            },
            None => {},
        }
    }
    #[verifier::loop_isolation(false)]
    while t < cnt
        invariant
            t <= cnt,
            rows@.len() == t,
            gv.len() == t,
            forall|j: int| 0 <= j < t ==> view_of(#[trigger] rows@[j]) == gv[j],
            match sdec_ings(s@, idx as int, (cnt - t) as nat) {
                Some(p) => sdec_ings(s@, i5 as int, cnt as nat) == Some((gv + p.0, p.1)),
                None => sdec_ings(s@, i5 as int, cnt as nat) is None,
            },
        decreases cnt - t,
    {
        let (ing, nxt) = match read_ing(s, idx) {
            Some(p) => p,
            None => {
                proof {
                    let c = (cnt - t) as nat;
                    assert(c > 0);
                    assert(sdec_ings(s@, idx as int, c) is None);
                }
                return None;
            },
        };
        proof {
            let c = (cnt - t) as nat;
            assert(sdec_ings(s@, idx as int, c) == (match sdec_ings(
                s@,
                nxt as int,
                (c - 1) as nat,
            ) {
                Some(p) => Some((seq![view_of(ing)] + p.0, p.1)),
                None => None::<(Seq<IngView>, int)>,
            }));
            match sdec_ings(s@, nxt as int, (c - 1) as nat) {
                Some(p) => {
                    assert(gv + (seq![view_of(ing)] + p.0) =~= (gv + seq![view_of(ing)]) + p.0);
                },
                None => {},
            }
            gv = gv.push(view_of(ing));
            assert(gv =~= gv.drop_last() + seq![view_of(ing)]);
        }
        rows.push(ing);
        idx = nxt;
        t = t + 1;
    }
    proof {
        assert(sdec_ings(s@, idx as int, 0) == Some((Seq::<IngView>::empty(), idx as int)));
        assert(gv + Seq::<IngView>::empty() =~= gv);
    }
    let n = s.unicode_len();
    if idx != n {
        return None;
    }
    let selected: Option<usize> = match selraw {
        Some(x) => {
            if x > usize::MAX as u64 {
                return None;
            }
            Some(x as usize)
        },
        None => None,
    };
    let ratio = Ratio { num, den };
    let ghost decoded = SessionView { ings: gv, selected, ratio, editing };
    proof {
        lemma_ok_equiv(rows@, gv, selected, ratio, editing);
    }
    match RecipeSession::restore(rows, selected, ratio, editing) {
        Some(sess) => {
            proof {
                assert(session_view(sess).ings =~= gv);
                assert(session_view(sess) =~~= decoded);
            }
            Some(sess)
        },
        None => None,
    }
}

/// Row-wise equal images make the two validity checks agree.
proof fn lemma_ok_equiv(
    rows: Seq<Ingredient>,
    gv: Seq<IngView>,
    selected: Option<usize>,
    ratio: Ratio,
    editing: bool,
)
    requires
        rows.len() == gv.len(),
        forall|j: int| 0 <= j < rows.len() ==> view_of(#[trigger] rows[j]) == gv[j],
    ensures
        restore_ok(rows, selected, ratio) == view_ok(
            (SessionView { ings: gv, selected, ratio, editing }),
        ),
{
    let v = SessionView { ings: gv, selected, ratio, editing };
    assert forall|j: int| 0 <= j < gv.len() implies #[trigger] gv[j].amount == rows[j].amount by {
        assert(view_of(rows[j]) == gv[j]);
    }
    assert forall|j: int| 0 <= j < rows.len() implies #[trigger] rows[j].amount == gv[j].amount by {
        assert(view_of(rows[j]) == gv[j]);
    }
}

} // verus!
