//! Structured values and their canonical text serialization.
//!
//! A stored fact's value is a tree: null, boolean, 64-bit signed integer,
//! text, ordered array, or ordered text-keyed object. The store keeps such
//! a value in a text column, in a canonical, self-delimiting form:
//!
//! - `n` for null, `t` for true, `f` for false;
//! - `i`, a sign (`+` or `-`, the latter never with magnitude zero), and
//!   the magnitude as exactly 20 decimal digits, zero-padded;
//! - `s`, the length as exactly 20 decimal digits, and then that many
//!   characters, raw;
//! - `[`, the elements' forms in order, `]`;
//! - `{`, then for each pair the key (its length as 20 digits, then its
//!   characters) followed by the value's form, `}`.
//!
//! The serializer is total; the parser accepts exactly the serializer's
//! outputs and rejects everything else, so a value survives the round
//! trip unchanged.

use vstd::prelude::*;
use vstd::arithmetic::div_mod::{
    lemma_div_denominator, lemma_fundamental_div_mod, lemma_fundamental_div_mod_converse,
    lemma_mod_division_less_than_divisor, lemma_multiply_divide_lt,
};

verus! {

/// A structured value: a JSON-like tree with 64-bit integers as numbers.
#[derive(Debug)]
pub enum Value {
    Null,
    Bool(bool),
    Int(i64),
    Text(Vec<char>),
    Arr(Vec<Value>),
    Obj(Vec<(Vec<char>, Value)>),
}

/// The mathematical shape of a structured value.
#[verifier::ext_equal]
pub enum ValueView {
    Null,
    Bool(bool),
    Int(int),
    Text(Seq<char>),
    Arr(Seq<ValueView>),
    Obj(Seq<(Seq<char>, ValueView)>),
}

/// The shape of an executable value.
pub open spec fn value_view(v: Value) -> ValueView
    decreases v,
{
    match v {
        Value::Null => ValueView::Null,
        Value::Bool(b) => ValueView::Bool(b),
        Value::Int(n) => ValueView::Int(n as int),
        Value::Text(t) => ValueView::Text(t@),
        Value::Arr(items) => ValueView::Arr(
            Seq::new(items@.len(), |k: int|
                if 0 <= k < items@.len() {
                    value_view(items@[k])
                } else {
                    ValueView::Null
                }),
        ),
        Value::Obj(pairs) => ValueView::Obj(
            Seq::new(pairs@.len(), |k: int|
                if 0 <= k < pairs@.len() {
                    (pairs@[k].0@, value_view(pairs@[k].1))
                } else {
                    (Seq::empty(), ValueView::Null)
                }),
        ),
    }
}

impl View for Value {
    type V = ValueView;

    open spec fn view(&self) -> ValueView {
        value_view(*self)
    }
}

/// The shapes of a sequence of executable values.
pub open spec fn views_of(s: Seq<Value>) -> Seq<ValueView> {
    Seq::new(s.len(), |k: int| value_view(s[k]))
}

/// The shapes of a sequence of executable key/value pairs.
pub open spec fn pair_views_of(s: Seq<(Vec<char>, Value)>) -> Seq<(Seq<char>, ValueView)> {
    Seq::new(s.len(), |k: int| (s[k].0@, value_view(s[k].1)))
}

/// Whether a value shape is representable by an executable value: every
/// integer in it fits a 64-bit signed word, and every text and key is of
/// a length a vector can have.
pub open spec fn wf_value_view(m: ValueView) -> bool
    decreases m,
{
    match m {
        ValueView::Null => true,
        ValueView::Bool(_) => true,
        ValueView::Int(n) => i64::MIN <= n <= i64::MAX,
        ValueView::Text(t) => t.len() < pow10(20),
        ValueView::Arr(items) => forall|k: int|
            0 <= k < items.len() ==> wf_value_view(#[trigger] items[k]),
        ValueView::Obj(pairs) => forall|k: int|
            0 <= k < pairs.len() ==> (#[trigger] pairs[k]).0.len() < pow10(20) && wf_value_view(
                pairs[k].1,
            ),
    }
}

// ---------------------------------------------------------------------------
// Fixed-width decimal rendering of magnitudes.
// ---------------------------------------------------------------------------

/// 10 to the power `e`.
pub open spec fn pow10(e: nat) -> nat
    decreases e,
{
    if e == 0 {
        1
    } else {
        10 * pow10((e - 1) as nat)
    }
}

/// The decimal digit character for `d` (0 to 9).
pub open spec fn dec_digit_char(d: nat) -> char {
    if d == 0 { '0' } else if d == 1 { '1' } else if d == 2 { '2' }
    else if d == 3 { '3' } else if d == 4 { '4' } else if d == 5 { '5' }
    else if d == 6 { '6' } else if d == 7 { '7' } else if d == 8 { '8' }
    else { '9' }
}

/// Whether `c` is a decimal digit character.
pub open spec fn is_dec_digit(c: char) -> bool {
    c == '0' || c == '1' || c == '2' || c == '3' || c == '4' || c == '5' || c == '6' || c == '7'
        || c == '8' || c == '9'
}

/// The numeric value of a decimal digit character.
pub open spec fn digit_val(c: char) -> nat {
    if c == '0' { 0 } else if c == '1' { 1 } else if c == '2' { 2 }
    else if c == '3' { 3 } else if c == '4' { 4 } else if c == '5' { 5 }
    else if c == '6' { 6 } else if c == '7' { 7 } else if c == '8' { 8 }
    else { 9 }
}

/// `n` rendered as exactly `width` decimal digits, zero-padded, most
/// significant first.
pub open spec fn dec_digits(n: nat, width: nat) -> Seq<char> {
    Seq::new(width, |j: int| dec_digit_char((n / pow10((width - 1 - j) as nat)) % 10))
}

/// `n` rendered as exactly 20 decimal digits.
pub open spec fn digits20(n: nat) -> Seq<char> {
    dec_digits(n, 20)
}

/// The number a sequence of digit characters denotes.
pub open spec fn dec_value_of(s: Seq<char>) -> nat
    decreases s.len(),
{
    if s.len() == 0 {
        0
    } else {
        dec_value_of(s.drop_last()) * 10 + digit_val(s.last())
    }
}

/// Whether every character of `s` is a decimal digit.
pub open spec fn all_dec_digits(s: Seq<char>) -> bool {
    forall|j: int| 0 <= j < s.len() ==> is_dec_digit(#[trigger] s[j])
}

proof fn lemma_pow10_pos(e: nat)
    ensures
        pow10(e) >= 1,
    decreases e,
{
    if e > 0 {
        lemma_pow10_pos((e - 1) as nat);
    }
}

proof fn lemma_pow10_increases(a: nat, b: nat)
    requires
        a <= b,
    ensures
        pow10(a) <= pow10(b),
    decreases b,
{
    if a < b {
        lemma_pow10_increases(a, (b - 1) as nat);
        lemma_pow10_pos((b - 1) as nat);
    }
}

proof fn lemma_pow10_20()
    ensures
        pow10(20) == 100_000_000_000_000_000_000,
        pow10(19) == 10_000_000_000_000_000_000,
    decreases 0nat,
{
    reveal_with_fuel(pow10, 21);
}

/// Peeling the least significant digit off a fixed-width rendering.
proof fn lemma_dec_digits_unfold(n: nat, width: nat)
    requires
        width >= 1,
    ensures
        dec_digits(n, width) == dec_digits(n / 10, (width - 1) as nat).push(
            dec_digit_char(n % 10),
        ),
{
    let lhs = dec_digits(n, width);
    let rhs = dec_digits(n / 10, (width - 1) as nat).push(dec_digit_char(n % 10));
    assert forall|j: int| 0 <= j < width implies lhs[j] == rhs[j] by {
        if j < width - 1 {
            let e = (width - 2 - j) as nat;
            lemma_pow10_pos(e);
            lemma_div_denominator(n as int, 10, pow10(e) as int);
            assert(pow10((width - 1 - j) as nat) == 10 * pow10(e));
            assert(n as int / ((10 * pow10(e)) as int) == (n as int / 10) / (pow10(e) as int));
            assert(n / (10 * pow10(e)) == (n / 10) / pow10(e));
        } else {
            assert(pow10((width - 1 - j) as nat) == 1);
        }
    }
    assert(lhs =~= rhs);
}

proof fn lemma_digit_char_val(d: nat)
    requires
        d < 10,
    ensures
        is_dec_digit(dec_digit_char(d)),
        digit_val(dec_digit_char(d)) == d,
{
}

/// A fixed-width rendering of a small enough number is all digits and
/// denotes the number itself.
proof fn lemma_dec_digits_value(n: nat, width: nat)
    requires
        n < pow10(width),
    ensures
        all_dec_digits(dec_digits(n, width)),
        dec_value_of(dec_digits(n, width)) == n,
    decreases width,
{
    if width == 0 {
        assert(dec_digits(n, 0) =~= Seq::<char>::empty());
    } else {
        lemma_dec_digits_unfold(n, width);
        let q = n / 10;
        let r = n % 10;
        lemma_fundamental_div_mod(n as int, 10);
        lemma_mod_division_less_than_divisor(n as int, 10);
        lemma_pow10_pos((width - 1) as nat);
        lemma_multiply_divide_lt(n as int, pow10((width - 1) as nat) as int, 10);
        assert(q < pow10((width - 1) as nat));
        lemma_dec_digits_value(q, (width - 1) as nat);
        let ds = dec_digits(q, (width - 1) as nat);
        let whole = ds.push(dec_digit_char(r));
        assert(whole.drop_last() =~= ds);
        lemma_digit_char_val(r);
        assert(dec_value_of(whole) == dec_value_of(ds) * 10 + r);
    }
}

/// Any all-digit sequence of a given width is the rendering of the number
/// it denotes, and that number is small enough for the width.
proof fn lemma_dec_digits_complete(s: Seq<char>)
    requires
        all_dec_digits(s),
    ensures
        dec_value_of(s) < pow10(s.len()),
        dec_digits(dec_value_of(s), s.len()) == s,
    decreases s.len(),
{
    if s.len() == 0 {
        assert(dec_digits(0, 0) =~= s);
    } else {
        let front = s.drop_last();
        let d = digit_val(s.last());
        assert(all_dec_digits(front)) by {
            assert forall|j: int| 0 <= j < front.len() implies is_dec_digit(#[trigger] front[j]) by {
                assert(front[j] == s[j]);
            }
        }
        lemma_dec_digits_complete(front);
        let q = dec_value_of(front);
        let v = dec_value_of(s);
        assert(v == q * 10 + d);
        assert(d < 10);
        assert(q <= pow10((s.len() - 1) as nat) - 1);
        assert(q * 10 <= (pow10((s.len() - 1) as nat) - 1) * 10) by (nonlinear_arith)
            requires q <= pow10((s.len() - 1) as nat) - 1;
        assert(pow10(s.len()) == 10 * pow10((s.len() - 1) as nat));
        assert(v < pow10(s.len()));
        lemma_fundamental_div_mod_converse(v as int, 10, q as int, d as int);
        assert(v / 10 == q);
        assert(v % 10 == d);
        lemma_dec_digits_unfold(v, s.len());
        assert(dec_digit_char(d) == s.last()) by {
            assert(is_dec_digit(s.last()));
        }
        assert(dec_digits(v, s.len()) == dec_digits(q, (s.len() - 1) as nat).push(s.last()));
        assert(front.push(s.last()) =~= s);
    }
}

// ---------------------------------------------------------------------------
// The canonical text form.
// ---------------------------------------------------------------------------

/// The magnitude of an integer.
pub open spec fn magnitude_of(n: int) -> nat {
    if n < 0 {
        (-n) as nat
    } else {
        n as nat
    }
}

/// The canonical text of a key or text chunk: its length as 20 digits,
/// then its characters.
pub open spec fn chunk_text_of(t: Seq<char>) -> Seq<char> {
    digits20(t.len()) + t
}

/// The canonical text form of a value shape.
pub open spec fn value_text_of(m: ValueView) -> Seq<char>
    decreases m,
{
    match m {
        ValueView::Null => seq!['n'],
        ValueView::Bool(b) => if b {
            seq!['t']
        } else {
            seq!['f']
        },
        ValueView::Int(n) => seq!['i'] + seq![if n < 0 { '-' } else { '+' }] + digits20(
            magnitude_of(n),
        ),
        ValueView::Text(t) => seq!['s'] + chunk_text_of(t),
        ValueView::Arr(items) => seq!['['] + items_text_of(items) + seq![']'],
        ValueView::Obj(pairs) => seq!['{'] + pairs_text_of(pairs) + seq!['}'],
    }
}

/// The concatenated text forms of a sequence of value shapes.
pub open spec fn items_text_of(items: Seq<ValueView>) -> Seq<char>
    decreases items,
{
    if items.len() == 0 {
        Seq::empty()
    } else {
        value_text_of(items[0]) + items_text_of(items.drop_first())
    }
}

/// The concatenated text forms of a sequence of key/value pairs.
pub open spec fn pairs_text_of(pairs: Seq<(Seq<char>, ValueView)>) -> Seq<char>
    decreases pairs,
{
    if pairs.len() == 0 {
        Seq::empty()
    } else {
        chunk_text_of(pairs[0].0) + value_text_of(pairs[0].1) + pairs_text_of(pairs.drop_first())
    }
}

proof fn lemma_items_text_snoc(items: Seq<ValueView>, x: ValueView)
    ensures
        items_text_of(items.push(x)) == items_text_of(items) + value_text_of(x),
    decreases items.len(),
{
    let p = items.push(x);
    if items.len() == 0 {
        assert(p.drop_first() =~= Seq::<ValueView>::empty());
        assert(p[0] == x);
        assert(items_text_of(p) == value_text_of(p[0]) + items_text_of(p.drop_first()));
        assert(items_text_of(p.drop_first()) == Seq::<char>::empty());
        assert(items_text_of(items) == Seq::<char>::empty());
        assert(items_text_of(p) =~= items_text_of(items) + value_text_of(x));
    } else {
        assert(p.drop_first() =~= items.drop_first().push(x));
        assert(p[0] == items[0]);
        lemma_items_text_snoc(items.drop_first(), x);
        assert(items_text_of(p) == value_text_of(items[0]) + items_text_of(p.drop_first()));
        assert(items_text_of(items) == value_text_of(items[0]) + items_text_of(
            items.drop_first(),
        ));
        assert(value_text_of(items[0]) + (items_text_of(items.drop_first()) + value_text_of(x))
            =~= (value_text_of(items[0]) + items_text_of(items.drop_first())) + value_text_of(x));
        assert(items_text_of(p) =~= items_text_of(items) + value_text_of(x));
    }
}

proof fn lemma_pairs_text_snoc(pairs: Seq<(Seq<char>, ValueView)>, x: (Seq<char>, ValueView))
    ensures
        pairs_text_of(pairs.push(x)) == pairs_text_of(pairs) + chunk_text_of(x.0) + value_text_of(
            x.1,
        ),
    decreases pairs.len(),
{
    let p = pairs.push(x);
    if pairs.len() == 0 {
        assert(p.drop_first() =~= Seq::<(Seq<char>, ValueView)>::empty());
        assert(p[0] == x);
        assert(pairs_text_of(p) == chunk_text_of(p[0].0) + value_text_of(p[0].1) + pairs_text_of(
            p.drop_first(),
        ));
        assert(pairs_text_of(p.drop_first()) == Seq::<char>::empty());
        assert(pairs_text_of(pairs) == Seq::<char>::empty());
        assert(pairs_text_of(p) =~= pairs_text_of(pairs) + chunk_text_of(x.0) + value_text_of(
            x.1,
        ));
    } else {
        assert(p.drop_first() =~= pairs.drop_first().push(x));
        assert(p[0] == pairs[0]);
        lemma_pairs_text_snoc(pairs.drop_first(), x);
        let h = chunk_text_of(pairs[0].0) + value_text_of(pairs[0].1);
        assert(pairs_text_of(p) == h + pairs_text_of(p.drop_first()));
        assert(pairs_text_of(pairs) == h + pairs_text_of(pairs.drop_first()));
        assert(h + (pairs_text_of(pairs.drop_first()) + chunk_text_of(x.0) + value_text_of(x.1))
            =~= (h + pairs_text_of(pairs.drop_first())) + chunk_text_of(x.0) + value_text_of(x.1));
        assert(pairs_text_of(p) =~= pairs_text_of(pairs) + chunk_text_of(x.0) + value_text_of(
            x.1,
        ));
    }
}

proof fn lemma_items_text_split(items: Seq<ValueView>, k: int)
    requires
        0 <= k <= items.len(),
    ensures
        items_text_of(items) == items_text_of(items.take(k)) + items_text_of(items.skip(k)),
    decreases k,
{
    if k == 0 {
        assert(items.take(0) =~= Seq::<ValueView>::empty());
        assert(items.skip(0) =~= items);
        assert(items_text_of(items.take(0)) == Seq::<char>::empty());
        assert(Seq::<char>::empty() + items_text_of(items) =~= items_text_of(items));
    } else {
        lemma_items_text_split(items.drop_first(), k - 1);
        assert(items.take(k)[0] == items[0]);
        assert(items.take(k).drop_first() =~= items.drop_first().take(k - 1));
        assert(items.skip(k) =~= items.drop_first().skip(k - 1));
        assert(items_text_of(items.take(k)) == value_text_of(items[0]) + items_text_of(
            items.drop_first().take(k - 1),
        ));
        assert(value_text_of(items[0]) + (items_text_of(items.drop_first().take(k - 1))
            + items_text_of(items.drop_first().skip(k - 1))) =~= (value_text_of(items[0])
            + items_text_of(items.drop_first().take(k - 1))) + items_text_of(
            items.drop_first().skip(k - 1),
        ));
    }
}

proof fn lemma_pairs_text_split(pairs: Seq<(Seq<char>, ValueView)>, k: int)
    requires
        0 <= k <= pairs.len(),
    ensures
        pairs_text_of(pairs) == pairs_text_of(pairs.take(k)) + pairs_text_of(pairs.skip(k)),
    decreases k,
{
    if k == 0 {
        assert(pairs.take(0) =~= Seq::<(Seq<char>, ValueView)>::empty());
        assert(pairs.skip(0) =~= pairs);
        assert(pairs_text_of(pairs.take(0)) == Seq::<char>::empty());
        assert(Seq::<char>::empty() + pairs_text_of(pairs) =~= pairs_text_of(pairs));
    } else {
        lemma_pairs_text_split(pairs.drop_first(), k - 1);
        assert(pairs.take(k)[0] == pairs[0]);
        assert(pairs.take(k).drop_first() =~= pairs.drop_first().take(k - 1));
        assert(pairs.skip(k) =~= pairs.drop_first().skip(k - 1));
        let h = chunk_text_of(pairs[0].0) + value_text_of(pairs[0].1);
        assert(pairs_text_of(pairs.take(k)) == h + pairs_text_of(
            pairs.drop_first().take(k - 1),
        ));
        assert(h + (pairs_text_of(pairs.drop_first().take(k - 1)) + pairs_text_of(
            pairs.drop_first().skip(k - 1),
        )) =~= (h + pairs_text_of(pairs.drop_first().take(k - 1))) + pairs_text_of(
            pairs.drop_first().skip(k - 1),
        ));
    }
}

// ---------------------------------------------------------------------------
// The canonical text is self-delimiting: at any position of any text, at
// most one value shape's form can stand.
// ---------------------------------------------------------------------------

/// Whether `t` stands in `s` at position `i`.
pub open spec fn seg_at(s: Seq<char>, i: int, t: Seq<char>) -> bool {
    0 <= i && i + t.len() <= s.len() && s.subrange(i, i + t.len()) == t
}

/// A concatenation stands at `i` exactly when its parts stand in order.
proof fn lemma_seg_concat(s: Seq<char>, i: int, a: Seq<char>, b: Seq<char>)
    ensures
        seg_at(s, i, a + b) <==> (seg_at(s, i, a) && seg_at(s, i + a.len(), b)),
{
    if seg_at(s, i, a + b) {
        assert(s.subrange(i, i + a.len()) =~= a) by {
            assert forall|j: int| 0 <= j < a.len() implies s.subrange(i, i + a.len())[j] == a[j]
                by {
                assert(s.subrange(i, i + (a + b).len())[j] == (a + b)[j]);
            }
        }
        assert(s.subrange(i + a.len(), i + a.len() + b.len()) =~= b) by {
            assert forall|j: int|
                0 <= j < b.len() implies s.subrange(i + a.len(), i + a.len() + b.len())[j] == b[j]
                by {
                assert(s.subrange(i, i + (a + b).len())[a.len() + j] == (a + b)[a.len() + j]);
            }
        }
    }
    if seg_at(s, i, a) && seg_at(s, i + a.len(), b) {
        assert(s.subrange(i, i + (a + b).len()) =~= a + b) by {
            assert forall|j: int|
                0 <= j < (a + b).len() implies s.subrange(i, i + (a + b).len())[j] == (a + b)[j]
                by {
                if j < a.len() {
                    assert(s.subrange(i, i + a.len())[j] == a[j]);
                } else {
                    assert(s.subrange(i + a.len(), i + a.len() + b.len())[j - a.len()] == b[j
                        - a.len()]);
                }
            }
        }
    }
}

/// The tag character a shape's text begins with.
pub open spec fn tag_of(m: ValueView) -> char {
    match m {
        ValueView::Null => 'n',
        ValueView::Bool(b) => if b {
            't'
        } else {
            'f'
        },
        ValueView::Int(_) => 'i',
        ValueView::Text(_) => 's',
        ValueView::Arr(_) => '[',
        ValueView::Obj(_) => '{',
    }
}

/// Every shape's text is non-empty, starts with its tag, and has the
/// length its variant dictates.
proof fn lemma_value_text_shape(m: ValueView)
    ensures
        value_text_of(m).len() >= 1,
        value_text_of(m)[0] == tag_of(m),
        m is Int ==> value_text_of(m).len() == 22,
        m matches ValueView::Text(t) ==> value_text_of(m).len() == 21 + t.len(),
        tag_of(m) == 'n' || tag_of(m) == 't' || tag_of(m) == 'f' || tag_of(m) == 'i' || tag_of(m)
            == 's' || tag_of(m) == '[' || tag_of(m) == '{',
{
}

/// Fixed-width digit renderings standing at one position denote one
/// number.
proof fn lemma_digits_at_unique(s: Seq<char>, i: int, n1: nat, n2: nat)
    requires
        n1 < pow10(20),
        n2 < pow10(20),
        seg_at(s, i, digits20(n1)),
        seg_at(s, i, digits20(n2)),
    ensures
        n1 == n2,
{
    assert(digits20(n1) =~= digits20(n2)) by {
        assert forall|j: int| 0 <= j < 20 implies digits20(n1)[j] == digits20(n2)[j] by {
            assert(s.subrange(i, i + 20)[j] == s[i + j]);
        }
    }
    lemma_dec_digits_value(n1, 20);
    lemma_dec_digits_value(n2, 20);
}

/// At one position of one text, at most one shape's form can stand.
proof fn lemma_value_text_unique(s: Seq<char>, i: int, m1: ValueView, m2: ValueView)
    requires
        wf_value_view(m1),
        wf_value_view(m2),
        seg_at(s, i, value_text_of(m1)),
        seg_at(s, i, value_text_of(m2)),
    ensures
        m1 == m2,
    decreases m1,
{
    lemma_value_text_shape(m1);
    lemma_value_text_shape(m2);
    assert(s[i] == tag_of(m1)) by {
        assert(s.subrange(i, i + value_text_of(m1).len())[0] == value_text_of(m1)[0]);
    }
    assert(s[i] == tag_of(m2)) by {
        assert(s.subrange(i, i + value_text_of(m2).len())[0] == value_text_of(m2)[0]);
    }
    match m1 {
        ValueView::Null => {
            assert(m2 is Null);
        },
        ValueView::Bool(b1) => {
            assert(m2 matches ValueView::Bool(b2) && b1 == b2);
        },
        ValueView::Int(n1) => {
            assert(m2 is Int);
            let n2 = m2->Int_0;
            let sign1: Seq<char> = seq![if n1 < 0 { '-' } else { '+' }];
            let sign2: Seq<char> = seq![if n2 < 0 { '-' } else { '+' }];
            lemma_seg_concat(s, i, seq!['i'] + sign1, digits20(magnitude_of(n1)));
            lemma_seg_concat(s, i, seq!['i'], sign1);
            lemma_seg_concat(s, i, seq!['i'] + sign2, digits20(magnitude_of(n2)));
            lemma_seg_concat(s, i, seq!['i'], sign2);
            assert(s[i + 1] == sign1[0]) by {
                assert(s.subrange(i + 1, i + 2)[0] == sign1[0]);
            }
            assert(s[i + 1] == sign2[0]) by {
                assert(s.subrange(i + 1, i + 2)[0] == sign2[0]);
            }
            assert((n1 < 0) == (n2 < 0));
            lemma_pow10_20();
            lemma_digits_at_unique(s, i + 2, magnitude_of(n1), magnitude_of(n2));
        },
        ValueView::Text(t1) => {
            assert(m2 is Text);
            let t2 = m2->Text_0;
            lemma_seg_concat(s, i, seq!['s'], chunk_text_of(t1));
            lemma_seg_concat(s, i + 1, digits20(t1.len()), t1);
            lemma_seg_concat(s, i, seq!['s'], chunk_text_of(t2));
            lemma_seg_concat(s, i + 1, digits20(t2.len()), t2);
            lemma_digits_at_unique(s, i + 1, t1.len(), t2.len());
            assert(t1 =~= t2) by {
                assert forall|j: int| 0 <= j < t1.len() implies t1[j] == t2[j] by {
                    assert(s.subrange(i + 21, i + 21 + t1.len())[j] == t1[j]);
                    assert(s.subrange(i + 21, i + 21 + t2.len())[j] == t2[j]);
                }
            }
        },
        ValueView::Arr(a1) => {
            assert(m2 is Arr);
            let a2 = m2->Arr_0;
            assert(items_text_of(a1) + seq![']'] =~= (items_text_of(a1) + seq![']']));
            lemma_seg_concat(s, i, seq!['['], items_text_of(a1) + seq![']']);
            lemma_seg_concat(s, i, seq!['['], items_text_of(a2) + seq![']']);
            assert(seq!['['] + items_text_of(a1) + seq![']'] =~= seq!['['] + (items_text_of(a1)
                + seq![']']));
            assert(seq!['['] + items_text_of(a2) + seq![']'] =~= seq!['['] + (items_text_of(a2)
                + seq![']']));
            lemma_items_text_unique(s, i + 1, a1, a2);
            assert(a1 =~= a2);
        },
        ValueView::Obj(p1) => {
            assert(m2 is Obj);
            let p2 = m2->Obj_0;
            lemma_seg_concat(s, i, seq!['{'], pairs_text_of(p1) + seq!['}']);
            lemma_seg_concat(s, i, seq!['{'], pairs_text_of(p2) + seq!['}']);
            assert(seq!['{'] + pairs_text_of(p1) + seq!['}'] =~= seq!['{'] + (pairs_text_of(p1)
                + seq!['}']));
            assert(seq!['{'] + pairs_text_of(p2) + seq!['}'] =~= seq!['{'] + (pairs_text_of(p2)
                + seq!['}']));
            lemma_pairs_text_unique(s, i + 1, p1, p2);
            assert(p1 =~= p2);
        },
    }
}

/// At one position, at most one sequence of element forms followed by the
/// closing bracket can stand.
proof fn lemma_items_text_unique(s: Seq<char>, i: int, a1: Seq<ValueView>, a2: Seq<ValueView>)
    requires
        forall|k: int| 0 <= k < a1.len() ==> wf_value_view(#[trigger] a1[k]),
        forall|k: int| 0 <= k < a2.len() ==> wf_value_view(#[trigger] a2[k]),
        seg_at(s, i, items_text_of(a1) + seq![']']),
        seg_at(s, i, items_text_of(a2) + seq![']']),
    ensures
        a1 =~= a2,
    decreases a1,
{
    lemma_seg_concat(s, i, items_text_of(a1), seq![']']);
    lemma_seg_concat(s, i, items_text_of(a2), seq![']']);
    if a1.len() == 0 && a2.len() == 0 {
    } else if a1.len() == 0 {
        assert(s[i] == ']') by {
            assert(s.subrange(i, i + 1)[0] == ']');
        }
        lemma_seg_concat(s, i, value_text_of(a2[0]), items_text_of(a2.drop_first()));
        lemma_value_text_shape(a2[0]);
        assert(s[i] == tag_of(a2[0])) by {
            assert(s.subrange(i, i + value_text_of(a2[0]).len())[0] == value_text_of(a2[0])[0]);
        }
        assert(false);
    } else if a2.len() == 0 {
        assert(s[i] == ']') by {
            assert(s.subrange(i, i + 1)[0] == ']');
        }
        lemma_seg_concat(s, i, value_text_of(a1[0]), items_text_of(a1.drop_first()));
        lemma_value_text_shape(a1[0]);
        assert(s[i] == tag_of(a1[0])) by {
            assert(s.subrange(i, i + value_text_of(a1[0]).len())[0] == value_text_of(a1[0])[0]);
        }
        assert(false);
    } else {
        lemma_seg_concat(s, i, value_text_of(a1[0]), items_text_of(a1.drop_first()));
        lemma_seg_concat(s, i, value_text_of(a2[0]), items_text_of(a2.drop_first()));
        lemma_value_text_unique(s, i, a1[0], a2[0]);
        let l = value_text_of(a1[0]).len() as int;
        lemma_seg_concat(s, i + l, items_text_of(a1.drop_first()), seq![']']);
        lemma_seg_concat(s, i + l, items_text_of(a2.drop_first()), seq![']']);
        lemma_items_text_unique(s, i + l, a1.drop_first(), a2.drop_first());
        assert(a1 =~= a2) by {
            assert(a1.len() == a2.len());
            assert forall|j: int| 0 <= j < a1.len() implies a1[j] == a2[j] by {
                if j > 0 {
                    assert(a1.drop_first()[j - 1] == a2.drop_first()[j - 1]);
                }
            }
        }
    }
}

/// At one position, at most one sequence of pair forms followed by the
/// closing brace can stand.
proof fn lemma_pairs_text_unique(
    s: Seq<char>,
    i: int,
    p1: Seq<(Seq<char>, ValueView)>,
    p2: Seq<(Seq<char>, ValueView)>,
)
    requires
        forall|k: int|
            0 <= k < p1.len() ==> (#[trigger] p1[k]).0.len() < pow10(20) && wf_value_view(
                p1[k].1,
            ),
        forall|k: int|
            0 <= k < p2.len() ==> (#[trigger] p2[k]).0.len() < pow10(20) && wf_value_view(
                p2[k].1,
            ),
        seg_at(s, i, pairs_text_of(p1) + seq!['}']),
        seg_at(s, i, pairs_text_of(p2) + seq!['}']),
    ensures
        p1 =~= p2,
    decreases p1,
{
    lemma_seg_concat(s, i, pairs_text_of(p1), seq!['}']);
    lemma_seg_concat(s, i, pairs_text_of(p2), seq!['}']);
    if p1.len() == 0 && p2.len() == 0 {
    } else if p1.len() == 0 || p2.len() == 0 {
        let q = if p1.len() == 0 {
            p2
        } else {
            p1
        };
        assert(s[i] == '}') by {
            assert(s.subrange(i, i + 1)[0] == '}');
        }
        assert(pairs_text_of(q) == chunk_text_of(q[0].0) + value_text_of(q[0].1) + pairs_text_of(
            q.drop_first(),
        ));
        assert(chunk_text_of(q[0].0) + value_text_of(q[0].1) + pairs_text_of(q.drop_first())
            =~= chunk_text_of(q[0].0) + (value_text_of(q[0].1) + pairs_text_of(q.drop_first())));
        lemma_seg_concat(
            s,
            i,
            chunk_text_of(q[0].0),
            value_text_of(q[0].1) + pairs_text_of(q.drop_first()),
        );
        lemma_seg_concat(s, i, digits20(q[0].0.len()), q[0].0);
        let d = (q[0].0.len() / pow10(19)) % 10;
        lemma_mod_division_less_than_divisor((q[0].0.len() / pow10(19)) as int, 10);
        lemma_digit_char_val(d);
        assert(s[i] == digits20(q[0].0.len())[0]) by {
            assert(s.subrange(i, i + 20)[0] == digits20(q[0].0.len())[0]);
        }
        assert(is_dec_digit('}') == false);
        assert(false);
    } else {
        let h1 = p1[0];
        let h2 = p2[0];
        assert(pairs_text_of(p1) == chunk_text_of(h1.0) + value_text_of(h1.1) + pairs_text_of(
            p1.drop_first(),
        ));
        assert(pairs_text_of(p2) == chunk_text_of(h2.0) + value_text_of(h2.1) + pairs_text_of(
            p2.drop_first(),
        ));
        assert(chunk_text_of(h1.0) + value_text_of(h1.1) + pairs_text_of(p1.drop_first())
            =~= chunk_text_of(h1.0) + (value_text_of(h1.1) + pairs_text_of(p1.drop_first())));
        assert(chunk_text_of(h2.0) + value_text_of(h2.1) + pairs_text_of(p2.drop_first())
            =~= chunk_text_of(h2.0) + (value_text_of(h2.1) + pairs_text_of(p2.drop_first())));
        lemma_seg_concat(
            s,
            i,
            chunk_text_of(h1.0),
            value_text_of(h1.1) + pairs_text_of(p1.drop_first()),
        );
        lemma_seg_concat(
            s,
            i,
            chunk_text_of(h2.0),
            value_text_of(h2.1) + pairs_text_of(p2.drop_first()),
        );
        lemma_seg_concat(s, i, digits20(h1.0.len()), h1.0);
        lemma_seg_concat(s, i, digits20(h2.0.len()), h2.0);
        lemma_digits_at_unique(s, i, h1.0.len(), h2.0.len());
        assert(h1.0 =~= h2.0) by {
            assert forall|j: int| 0 <= j < h1.0.len() implies h1.0[j] == h2.0[j] by {
                assert(s.subrange(i + 20, i + 20 + h1.0.len())[j] == h1.0[j]);
                assert(s.subrange(i + 20, i + 20 + h2.0.len())[j] == h2.0[j]);
            }
        }
        let ck = 20 + h1.0.len() as int;
        lemma_seg_concat(s, i + ck, value_text_of(h1.1), pairs_text_of(p1.drop_first()));
        lemma_seg_concat(s, i + ck, value_text_of(h2.1), pairs_text_of(p2.drop_first()));
        lemma_value_text_unique(s, i + ck, h1.1, h2.1);
        let l = ck + value_text_of(h1.1).len() as int;
        lemma_seg_concat(s, i + l, pairs_text_of(p1.drop_first()), seq!['}']);
        lemma_seg_concat(s, i + l, pairs_text_of(p2.drop_first()), seq!['}']);
        lemma_pairs_text_unique(s, i + l, p1.drop_first(), p2.drop_first());
        assert(p1 =~= p2) by {
            assert(h1 == h2);
            assert(p1.len() == p2.len());
            assert forall|j: int| 0 <= j < p1.len() implies p1[j] == p2[j] by {
                if j > 0 {
                    assert(p1.drop_first()[j - 1] == p2.drop_first()[j - 1]);
                }
            }
        }
    }
}

/// Two shapes with the same canonical text are the same shape: the text
/// form loses nothing.
pub proof fn lemma_value_text_injective(m1: ValueView, m2: ValueView)
    requires
        wf_value_view(m1),
        wf_value_view(m2),
        value_text_of(m1) == value_text_of(m2),
    ensures
        m1 == m2,
{
    let s = value_text_of(m1);
    assert(s.subrange(0, s.len() as int) =~= s);
    lemma_value_text_unique(s, 0, m1, m2);
}

/// Every executable value's shape is representable.
pub proof fn lemma_value_wf(v: Value)
    ensures
        wf_value_view(v@),
    decreases v,
{
    lemma_pow10_20();
    match v {
        Value::Null => {},
        Value::Bool(_) => {},
        Value::Int(_) => {},
        Value::Text(t) => {
            assert(t.len() == t@.len());
        },
        Value::Arr(items) => {
            assert forall|k: int| 0 <= k < items@.len() implies wf_value_view(
                #[trigger] (v@->Arr_0)[k],
            ) by {
                lemma_value_wf(items@[k]);
                assert((v@->Arr_0)[k] == items@[k]@);
            }
        },
        Value::Obj(pairs) => {
            assert forall|k: int|
                0 <= k < pairs@.len() implies (#[trigger] (v@->Obj_0)[k]).0.len() < pow10(20)
                    && wf_value_view((v@->Obj_0)[k].1) by {
                lemma_value_wf(pairs@[k].1);
                assert(pairs@[k].0.len() == pairs@[k].0@.len());
                assert((v@->Obj_0)[k] == (pairs@[k].0@, pairs@[k].1@));
            }
        },
    }
}

// ---------------------------------------------------------------------------
// Executable serialization.
// ---------------------------------------------------------------------------

fn dec_digit_char_exec(d: u64) -> (c: char)
    requires
        d < 10,
    ensures
        c == dec_digit_char(d as nat),
{
    match d {
        0 => '0',
        1 => '1',
        2 => '2',
        3 => '3',
        4 => '4',
        5 => '5',
        6 => '6',
        7 => '7',
        8 => '8',
        _ => '9',
    }
}

#[verifier::loop_isolation(false)]
fn pow10_exec(e: usize) -> (r: u64)
    requires
        e <= 19,
    ensures
        r as nat == pow10(e as nat),
{
    proof {
        lemma_pow10_20();
    }
    let mut r: u64 = 1;
    let mut k: usize = 0;
    while k < e
        invariant
            k <= e <= 19,
            r as nat == pow10(k as nat),
        decreases e - k,
    {
        proof {
            assert(pow10((k + 1) as nat) == 10 * pow10(k as nat));
            lemma_pow10_increases((k + 1) as nat, 19);
            assert(10 * (r as nat) <= pow10(19));
        }
        r = r * 10;
        k = k + 1;
    }
    r
}

/// Appends the 20-digit zero-padded decimal rendering of `n`.
fn push_digits20(n: u128, out: &mut Vec<char>)
    requires
        (n as nat) < pow10(20),
    ensures
        final(out)@ == old(out)@ + digits20(n as nat),
{
    let mut k: usize = 0;
    while k < 20
        invariant
            k <= 20,
            (n as nat) < pow10(20),
            out@ == old(out)@ + digits20(n as nat).take(k as int),
        decreases 20 - k,
    {
        let p = pow10_exec(19 - k) as u128;
        proof {
            lemma_pow10_pos((19 - k) as nat);
        }
        let d = ((n / p) % 10) as u64;
        proof {
            lemma_mod_division_less_than_divisor((n / p) as int, 10);
        }
        let c = dec_digit_char_exec(d);
        out.push(c);
        proof {
            let ds = digits20(n as nat);
            assert(ds[k as int] == dec_digit_char(((n as nat) / pow10((19 - k) as nat)) % 10));
            assert(ds.take(k as int).push(ds[k as int]) =~= ds.take(k + 1));
        }
        k = k + 1;
    }
    proof {
        assert(digits20(n as nat).take(20) =~= digits20(n as nat));
    }
}

/// Appends the canonical text form of `v`.
#[verifier::loop_isolation(false)]
fn push_value_text(v: &Value, out: &mut Vec<char>)
    ensures
        final(out)@ == old(out)@ + value_text_of(v@),
    decreases *v,
{
    match v {
        Value::Null => {
            out.push('n');
            proof {
                assert(old(out)@.push('n') =~= old(out)@ + seq!['n']);
            }
        },
        Value::Bool(b) => {
            if *b {
                out.push('t');
                proof {
                    assert(old(out)@.push('t') =~= old(out)@ + seq!['t']);
                }
            } else {
                out.push('f');
                proof {
                    assert(old(out)@.push('f') =~= old(out)@ + seq!['f']);
                }
            }
        },
        Value::Int(n) => {
            out.push('i');
            let m: u128;
            if *n < 0 {
                out.push('-');
                m = (-(*n as i128)) as u128;
            } else {
                out.push('+');
                m = *n as u128;
            }
            proof {
                lemma_pow10_20();
                assert((m as nat) < pow10(20));
            }
            push_digits20(m, out);
            proof {
                assert(m as nat == magnitude_of(*n as int));
                assert(old(out)@.push('i').push(if *n < 0 { '-' } else { '+' }) + digits20(
                    m as nat,
                ) =~= old(out)@ + value_text_of(v@));
            }
        },
        Value::Text(t) => {
            out.push('s');
            push_chunk(t, out);
            proof {
                assert(old(out)@.push('s') + chunk_text_of(t@) =~= old(out)@ + value_text_of(v@));
            }
        },
        Value::Arr(items) => {
            out.push('[');
            let ghost views = views_of(items@);
            let mut k: usize = 0;
            while k < items.len()
                invariant
                    k <= items.len(),
                    views == views_of(items@),
                    out@ == old(out)@.push('[') + items_text_of(views.take(k as int)),
                decreases items.len() - k,
            {
                proof {
                    assert(*items == v->Arr_0);
                    assert(decreases_to!(*v => v->Arr_0));
                    assert(decreases_to!(*items => items@));
                    assert(decreases_to!(items@ => items@[k as int]));
                }
                push_value_text(&items[k], out);
                proof {
                    lemma_items_text_snoc(views.take(k as int), views[k as int]);
                    assert(views.take(k as int).push(views[k as int]) =~= views.take(k + 1));
                    assert(views[k as int] == items@[k as int]@);
                }
                k = k + 1;
            }
            out.push(']');
            proof {
                assert(views.take(items@.len() as int) =~= views);
                assert(v@ matches ValueView::Arr(vs) && vs =~= views) by {
                    assert(v@ == value_view(*v));
                }
                assert(old(out)@.push('[') + items_text_of(views) + seq![']'] =~= old(out)@
                    + value_text_of(v@));
            }
        },
        Value::Obj(pairs) => {
            out.push('{');
            let ghost views = pair_views_of(pairs@);
            let mut k: usize = 0;
            while k < pairs.len()
                invariant
                    k <= pairs.len(),
                    views == pair_views_of(pairs@),
                    out@ == old(out)@.push('{') + pairs_text_of(views.take(k as int)),
                decreases pairs.len() - k,
            {
                push_chunk(&pairs[k].0, out);
                proof {
                    assert(*pairs == v->Obj_0);
                    assert(decreases_to!(*v => v->Obj_0));
                    assert(decreases_to!(*pairs => pairs@));
                    assert(decreases_to!(pairs@ => pairs@[k as int]));
                    assert(decreases_to!(pairs@[k as int] => pairs@[k as int].1));
                }
                push_value_text(&pairs[k].1, out);
                proof {
                    lemma_pairs_text_snoc(views.take(k as int), views[k as int]);
                    assert(views.take(k as int).push(views[k as int]) =~= views.take(k + 1));
                    assert(views[k as int] == (pairs@[k as int].0@, pairs@[k as int].1@));
                }
                k = k + 1;
            }
            out.push('}');
            proof {
                assert(views.take(pairs@.len() as int) =~= views);
                assert(v@ matches ValueView::Obj(vs) && vs =~= views) by {
                    assert(v@ == value_view(*v));
                }
                assert(old(out)@.push('{') + pairs_text_of(views) + seq!['}'] =~= old(out)@
                    + value_text_of(v@));
            }
        },
    }
}

/// Appends a length-prefixed chunk of characters.
fn push_chunk(t: &Vec<char>, out: &mut Vec<char>)
    ensures
        final(out)@ == old(out)@ + chunk_text_of(t@),
{
    proof {
        lemma_pow10_20();
    }
    push_digits20(t.len() as u128, out);
    let mut k: usize = 0;
    while k < t.len()
        invariant
            k <= t.len(),
            out@ == old(out)@ + digits20(t@.len()) + t@.take(k as int),
        decreases t.len() - k,
    {
        out.push(t[k]);
        proof {
            assert(t@.take(k as int).push(t@[k as int]) =~= t@.take(k + 1));
        }
        k = k + 1;
    }
    proof {
        assert(t@.take(t@.len() as int) =~= t@);
        assert(old(out)@ + digits20(t@.len()) + t@ =~= old(out)@ + chunk_text_of(t@));
    }
}

// ---------------------------------------------------------------------------
// Executable parsing.
// ---------------------------------------------------------------------------

/// Whether the rendering of `n` as 20 digits stands in `s` at position `i`.
pub open spec fn digits_prefix_at(s: Seq<char>, i: int, n: nat) -> bool {
    0 <= i && i + 20 <= s.len() && s.subrange(i, i + 20) == digits20(n)
}

/// Whether the canonical text of `m` stands in `s` at position `i`.
pub open spec fn text_prefix_at(s: Seq<char>, i: int, m: ValueView) -> bool {
    0 <= i && i + value_text_of(m).len() <= s.len() && s.subrange(
        i,
        i + value_text_of(m).len(),
    ) == value_text_of(m)
}

fn digit_val_exec(c: char) -> (r: Option<u64>)
    ensures
        r matches Some(d) ==> is_dec_digit(c) && d < 10 && d as nat == digit_val(c),
        r is None ==> !is_dec_digit(c),
{
    match c {
        '0' => Some(0),
        '1' => Some(1),
        '2' => Some(2),
        '3' => Some(3),
        '4' => Some(4),
        '5' => Some(5),
        '6' => Some(6),
        '7' => Some(7),
        '8' => Some(8),
        '9' => Some(9),
        _ => None,
    }
}

/// Reads exactly 20 decimal digits starting at `i`.
#[verifier::loop_isolation(false)]
fn read_digits20(s: &Vec<char>, i: usize) -> (r: Option<(u128, usize)>)
    requires
        i <= s@.len(),
    ensures
        r matches Some((n, j)) ==> j == i + 20 && i + 20 <= s@.len() && (n as nat) < pow10(20)
            && s@.subrange(i as int, i + 20) == digits20(n as nat),
        r is None ==> forall|n: nat| !digits_prefix_at(s@, i as int, n),
{
    proof {
        lemma_pow10_20();
    }
    if s.len() - i < 20 {
        return None;
    }
    let mut acc: u128 = 0;
    let mut k: usize = 0;
    while k < 20
        invariant
            k <= 20,
            acc as nat == dec_value_of(s@.subrange(i as int, i + k)),
            all_dec_digits(s@.subrange(i as int, i + k)),
            (acc as nat) < pow10(k as nat),
        decreases 20 - k,
    {
        let c = s[i + k];
        match digit_val_exec(c) {
            None => {
                proof {
                    assert forall|n: nat| !(#[trigger] digits_prefix_at(s@, i as int, n)) by {
                        if digits_prefix_at(s@, i as int, n) {
                            let d = (n / pow10((19 - k) as nat)) % 10;
                            lemma_mod_division_less_than_divisor(
                                (n / pow10((19 - k) as nat)) as int,
                                10,
                            );
                            lemma_digit_char_val(d);
                            assert(s@.subrange(i as int, i + 20)[k as int] == s@[i + k]);
                            assert(digits20(n)[k as int] == dec_digit_char(d));
                        }
                    }
                }
                return None;
            },
            Some(d) => {
                proof {
                    let sub = s@.subrange(i as int, i + k);
                    let sub1 = s@.subrange(i as int, i + k + 1);
                    assert(sub1.drop_last() =~= sub);
                    assert(sub1.last() == c);
                    assert(pow10((k + 1) as nat) == 10 * pow10(k as nat));
                    lemma_pow10_increases((k + 1) as nat, 20);
                    assert((acc as nat) * 10 + (d as nat) < pow10((k + 1) as nat));
                }
                acc = acc * 10 + d as u128;
                k = k + 1;
            },
        }
    }
    proof {
        lemma_dec_digits_complete(s@.subrange(i as int, i + 20));
    }
    Some((acc, i + 20))
}

/// Whether some representable shape's text stands at position `i`.
pub open spec fn some_value_at(s: Seq<char>, i: int) -> bool {
    exists|m: ValueView| wf_value_view(m) && text_prefix_at(s, i, m)
}

proof fn lemma_prefix_tag(s: Seq<char>, i: int, m: ValueView)
    requires
        text_prefix_at(s, i, m),
    ensures
        i < s.len(),
        s[i] == tag_of(m),
{
    lemma_value_text_shape(m);
    assert(s.subrange(i, i + value_text_of(m).len())[0] == value_text_of(m)[0]);
}

proof fn lemma_tag_variant(m: ValueView)
    ensures
        tag_of(m) == 'n' ==> m is Null,
        tag_of(m) == 't' ==> (m matches ValueView::Bool(b) && b),
        tag_of(m) == 'f' ==> (m matches ValueView::Bool(b) && !b),
        tag_of(m) == 'i' ==> m is Int,
        tag_of(m) == 's' ==> m is Text,
        tag_of(m) == '[' ==> m is Arr,
        tag_of(m) == '{' ==> m is Obj,
{
    match m {
        ValueView::Null => {},
        ValueView::Bool(_) => {},
        ValueView::Int(_) => {},
        ValueView::Text(_) => {},
        ValueView::Arr(_) => {},
        ValueView::Obj(_) => {},
    }
}

proof fn lemma_int_prefix_parts(s: Seq<char>, i: int, m: ValueView)
    requires
        text_prefix_at(s, i, m),
        m is Int,
    ensures
        i + 22 <= s.len(),
        s[i + 1] == (if m->Int_0 < 0 { '-' } else { '+' }),
        seg_at(s, i + 2, digits20(magnitude_of(m->Int_0))),
{
    let n = m->Int_0;
    let sign: Seq<char> = seq![if n < 0 { '-' } else { '+' }];
    lemma_value_text_shape(m);
    lemma_seg_concat(s, i, seq!['i'] + sign, digits20(magnitude_of(n)));
    lemma_seg_concat(s, i, seq!['i'], sign);
    assert(s.subrange(i + 1, i + 2)[0] == sign[0]);
}

proof fn lemma_text_prefix_parts(s: Seq<char>, i: int, m: ValueView)
    requires
        text_prefix_at(s, i, m),
        m is Text,
    ensures
        i + 21 + m->Text_0.len() <= s.len(),
        seg_at(s, i + 1, digits20(m->Text_0.len())),
        seg_at(s, i + 21, m->Text_0),
{
    let t = m->Text_0;
    lemma_value_text_shape(m);
    lemma_seg_concat(s, i, seq!['s'], chunk_text_of(t));
    lemma_seg_concat(s, i + 1, digits20(t.len()), t);
}

proof fn lemma_arr_prefix_parts(s: Seq<char>, i: int, m: ValueView)
    requires
        text_prefix_at(s, i, m),
        m is Arr,
    ensures
        seg_at(s, i + 1, items_text_of(m->Arr_0) + seq![']']),
{
    let a = m->Arr_0;
    assert(seq!['['] + items_text_of(a) + seq![']'] =~= seq!['['] + (items_text_of(a)
        + seq![']']));
    lemma_seg_concat(s, i, seq!['['], items_text_of(a) + seq![']']);
}

proof fn lemma_obj_prefix_parts(s: Seq<char>, i: int, m: ValueView)
    requires
        text_prefix_at(s, i, m),
        m is Obj,
    ensures
        seg_at(s, i + 1, pairs_text_of(m->Obj_0) + seq!['}']),
{
    let p = m->Obj_0;
    assert(seq!['{'] + pairs_text_of(p) + seq!['}'] =~= seq!['{'] + (pairs_text_of(p)
        + seq!['}']));
    lemma_seg_concat(s, i, seq!['{'], pairs_text_of(p) + seq!['}']);
}

/// What stands just after `k` parsed elements of an array's body.
proof fn lemma_arr_progress(s: Seq<char>, i: int, m: ValueView, k: int, j: int)
    requires
        text_prefix_at(s, i, m),
        m is Arr,
        0 <= k <= m->Arr_0.len(),
        j == i + 1 + items_text_of(m->Arr_0.take(k)).len(),
        forall|q: int| 0 <= q < m->Arr_0.len() ==> wf_value_view(#[trigger] m->Arr_0[q]),
    ensures
        k < m->Arr_0.len() ==> j < s.len() && text_prefix_at(s, j, m->Arr_0[k])
            && wf_value_view(m->Arr_0[k]) && s[j] == tag_of(m->Arr_0[k]),
        k == m->Arr_0.len() ==> j < s.len() && s[j] == ']',
{
    let a = m->Arr_0;
    lemma_arr_prefix_parts(s, i, m);
    lemma_items_text_split(a, k);
    assert((items_text_of(a.take(k)) + items_text_of(a.skip(k))) + seq![']']
        =~= items_text_of(a.take(k)) + (items_text_of(a.skip(k)) + seq![']']));
    lemma_seg_concat(s, i + 1, items_text_of(a.take(k)), items_text_of(a.skip(k)) + seq![']']);
    if k < a.len() {
        assert(items_text_of(a.skip(k)) == value_text_of(a.skip(k)[0]) + items_text_of(
            a.skip(k).drop_first(),
        ));
        assert(a.skip(k)[0] == a[k]);
        assert((value_text_of(a[k]) + items_text_of(a.skip(k).drop_first())) + seq![']']
            =~= value_text_of(a[k]) + (items_text_of(a.skip(k).drop_first()) + seq![']']));
        lemma_seg_concat(
            s,
            j,
            value_text_of(a[k]),
            items_text_of(a.skip(k).drop_first()) + seq![']'],
        );
        lemma_prefix_tag(s, j, a[k]);
    } else {
        assert(a.skip(k) =~= Seq::<ValueView>::empty());
        assert(items_text_of(a.skip(k)) == Seq::<char>::empty());
        assert(Seq::<char>::empty() + seq![']'] =~= seq![']']);
        lemma_seg_concat(s, j, Seq::<char>::empty(), seq![']']);
        assert(seg_at(s, j, seq![']']));
        assert(s.subrange(j, j + 1)[0] == ']');
    }
}

/// What stands just after `k` parsed pairs of an object's body.
proof fn lemma_obj_progress(s: Seq<char>, i: int, m: ValueView, k: int, j: int)
    requires
        text_prefix_at(s, i, m),
        m is Obj,
        0 <= k <= m->Obj_0.len(),
        j == i + 1 + pairs_text_of(m->Obj_0.take(k)).len(),
        forall|q: int|
            0 <= q < m->Obj_0.len() ==> (#[trigger] m->Obj_0[q]).0.len() < pow10(20)
                && wf_value_view(m->Obj_0[q].1),
    ensures
        k < m->Obj_0.len() ==> ({
            let key = m->Obj_0[k].0;
            &&& j < s.len()
            &&& seg_at(s, j, digits20(key.len()))
            &&& j + 20 + key.len() <= s.len()
            &&& seg_at(s, j + 20, key)
            &&& text_prefix_at(s, j + 20 + key.len(), m->Obj_0[k].1)
            &&& wf_value_view(m->Obj_0[k].1)
            &&& is_dec_digit(s[j])
        }),
        k == m->Obj_0.len() ==> j < s.len() && s[j] == '}',
{
    let p = m->Obj_0;
    lemma_obj_prefix_parts(s, i, m);
    lemma_pairs_text_split(p, k);
    assert((pairs_text_of(p.take(k)) + pairs_text_of(p.skip(k))) + seq!['}']
        =~= pairs_text_of(p.take(k)) + (pairs_text_of(p.skip(k)) + seq!['}']));
    lemma_seg_concat(s, i + 1, pairs_text_of(p.take(k)), pairs_text_of(p.skip(k)) + seq!['}']);
    if k < p.len() {
        let key = p[k].0;
        let val = p[k].1;
        assert(pairs_text_of(p.skip(k)) == chunk_text_of(p.skip(k)[0].0) + value_text_of(
            p.skip(k)[0].1,
        ) + pairs_text_of(p.skip(k).drop_first()));
        assert(p.skip(k)[0] == p[k]);
        let rest = pairs_text_of(p.skip(k).drop_first());
        assert((chunk_text_of(key) + value_text_of(val) + rest) + seq!['}'] =~= chunk_text_of(
            key,
        ) + (value_text_of(val) + (rest + seq!['}'])));
        lemma_seg_concat(s, j, chunk_text_of(key), value_text_of(val) + (rest + seq!['}']));
        lemma_seg_concat(s, j, digits20(key.len()), key);
        lemma_seg_concat(s, j + 20 + key.len(), value_text_of(val), rest + seq!['}']);
        let d = (key.len() / pow10(19)) % 10;
        lemma_mod_division_less_than_divisor((key.len() / pow10(19)) as int, 10);
        lemma_digit_char_val(d);
        assert(s.subrange(j, j + 20)[0] == digits20(key.len())[0]);
    } else {
        assert(p.skip(k) =~= Seq::<(Seq<char>, ValueView)>::empty());
        assert(pairs_text_of(p.skip(k)) == Seq::<char>::empty());
        assert(Seq::<char>::empty() + seq!['}'] =~= seq!['}']);
        lemma_seg_concat(s, j, Seq::<char>::empty(), seq!['}']);
        assert(s.subrange(j, j + 1)[0] == '}');
    }
}

/// Parses an integer form standing at `i`.
#[verifier::loop_isolation(false)]
#[verifier::rlimit(60)]
fn parse_int_at(s: &Vec<char>, i: usize) -> (r: Option<(Value, usize)>)
    requires
        i < s@.len(),
        s@[i as int] == 'i',
    ensures
        r matches Some((v, j)) ==> i < j <= s@.len() && j == i + value_text_of(v@).len()
            && s@.subrange(i as int, j as int) == value_text_of(v@),
        some_value_at(s@, i as int) ==> r is Some,
{
    let ghost ii = i as int;
    proof {
        if some_value_at(s@, ii) {
            let m0 = choose|m: ValueView| wf_value_view(m) && text_prefix_at(s@, ii, m);
            lemma_prefix_tag(s@, ii, m0);
            lemma_tag_variant(m0);
        }
    }
    proof {
        lemma_pow10_20();
        if some_value_at(s@, ii) {
            let m0 = choose|m: ValueView| wf_value_view(m) && text_prefix_at(s@, ii, m);
            lemma_tag_variant(m0);
            lemma_int_prefix_parts(s@, ii, m0);
        }
    }
    if s.len() - i < 22 {
        return None;
    }
    let sign = s[i + 1];
    if !(sign == '+' || sign == '-') {
        return None;
    }
    match read_digits20(s, i + 2) {
        None => {
            proof {
                lemma_pow10_20();
                if some_value_at(s@, ii) {
                    let m0 = choose|m: ValueView|
                        wf_value_view(m) && text_prefix_at(s@, ii, m);
                    lemma_tag_variant(m0);
                    lemma_int_prefix_parts(s@, ii, m0);
                    assert(digits_prefix_at(s@, ii + 2, magnitude_of(m0->Int_0)));
                }
            }
            return None;
        },
        Some((a, j)) => {
            proof {
                lemma_pow10_20();
                if some_value_at(s@, ii) {
                    let m0 = choose|m: ValueView|
                        wf_value_view(m) && text_prefix_at(s@, ii, m);
                    lemma_tag_variant(m0);
                    lemma_int_prefix_parts(s@, ii, m0);
                    lemma_digits_at_unique(
                        s@,
                        ii + 2,
                        magnitude_of(m0->Int_0),
                        a as nat,
                    );
                }
            }
            if sign == '+' {
                if a > i64::MAX as u128 {
                    return None;
                }
                let n = a as i64;
                proof {
                    assert(magnitude_of(n as int) == a as nat);
                    assert(s@.subrange(ii, j as int) =~= seq![s@[ii]] + seq![s@[ii + 1]]
                        + s@.subrange(ii + 2, j as int));
                }
                return Some((Value::Int(n), j));
            } else {
                if a > 0x8000_0000_0000_0000u128 {
                    return None;
                }
                if a == 0 {
                    return None;
                }
                let n: i64 = if a == 0x8000_0000_0000_0000u128 {
                    i64::MIN
                } else {
                    -(a as i64)
                };
                proof {
                    assert(n < 0);
                    assert(magnitude_of(n as int) == a as nat);
                    assert(s@.subrange(ii, j as int) =~= seq![s@[ii]] + seq![s@[ii + 1]]
                        + s@.subrange(ii + 2, j as int));
                }
                return Some((Value::Int(n), j));
            }
        },
    }
    // The tag was checked by the caller, so one of the returns above runs.
}

/// Parses a text form standing at `i`.
#[verifier::loop_isolation(false)]
#[verifier::rlimit(60)]
fn parse_text_at(s: &Vec<char>, i: usize) -> (r: Option<(Value, usize)>)
    requires
        i < s@.len(),
        s@[i as int] == 's',
    ensures
        r matches Some((v, j)) ==> i < j <= s@.len() && j == i + value_text_of(v@).len()
            && s@.subrange(i as int, j as int) == value_text_of(v@),
        some_value_at(s@, i as int) ==> r is Some,
{
    let ghost ii = i as int;
    proof {
        if some_value_at(s@, ii) {
            let m0 = choose|m: ValueView| wf_value_view(m) && text_prefix_at(s@, ii, m);
            lemma_prefix_tag(s@, ii, m0);
            lemma_tag_variant(m0);
        }
    }
    proof {
        lemma_pow10_20();
        if some_value_at(s@, ii) {
            let m0 = choose|m: ValueView| wf_value_view(m) && text_prefix_at(s@, ii, m);
            lemma_tag_variant(m0);
            lemma_text_prefix_parts(s@, ii, m0);
        }
    }
    if s.len() - i < 21 {
        return None;
    }
    match read_digits20(s, i + 1) {
        None => {
            proof {
                lemma_pow10_20();
                if some_value_at(s@, ii) {
                    let m0 = choose|m: ValueView|
                        wf_value_view(m) && text_prefix_at(s@, ii, m);
                    lemma_tag_variant(m0);
                    lemma_text_prefix_parts(s@, ii, m0);
                    assert(digits_prefix_at(s@, ii + 1, m0->Text_0.len()));
                }
            }
            return None;
        },
        Some((ln, j)) => {
            proof {
                if some_value_at(s@, ii) {
                    let m0 = choose|m: ValueView|
                        wf_value_view(m) && text_prefix_at(s@, ii, m);
                    lemma_tag_variant(m0);
                    lemma_text_prefix_parts(s@, ii, m0);
                    lemma_digits_at_unique(s@, ii + 1, m0->Text_0.len(), ln as nat);
                }
            }
            if ln > (s.len() - j) as u128 {
                return None;
            }
            let l = ln as usize;
            let mut t: Vec<char> = Vec::new();
            let mut k: usize = 0;
            while k < l
                invariant
                    k <= l,
                    j + l <= s@.len(),
                    t@ == s@.subrange(j as int, j + k),
                decreases l - k,
            {
                t.push(s[j + k]);
                proof {
                    assert(s@.subrange(j as int, j + k).push(s@[j + k]) =~= s@.subrange(
                        j as int,
                        j + k + 1,
                    ));
                }
                k = k + 1;
            }
            proof {
                assert(t@.len() == ln as nat);
                assert(s@.subrange(ii, j + l) =~= seq![s@[ii]] + s@.subrange(ii + 1, j as int)
                    + s@.subrange(j as int, j + l));
            }
            return Some((Value::Text(t), j + l));
        },
    }
    // The tag was checked by the caller, so one of the returns above runs.
}

/// Parses one value whose canonical text starts at `i`; on success returns
/// it with the position just past its text. Exactly the positions where a
/// representable shape's text stands are accepted.
#[verifier::loop_isolation(false)]
#[verifier::rlimit(100)]
fn parse_value_at(s: &Vec<char>, i: usize) -> (r: Option<(Value, usize)>)
    requires
        i <= s@.len(),
    ensures
        r matches Some((v, j)) ==> i < j <= s@.len() && j == i + value_text_of(v@).len()
            && s@.subrange(i as int, j as int) == value_text_of(v@),
        some_value_at(s@, i as int) ==> r is Some,
    decreases s@.len() - i,
{
    let ghost ii = i as int;
    if i >= s.len() {
        proof {
            if some_value_at(s@, ii) {
                let m0 = choose|m: ValueView| wf_value_view(m) && text_prefix_at(s@, ii, m);
                lemma_prefix_tag(s@, ii, m0);
            }
        }
        return None;
    }
    let c = s[i];
    proof {
        if some_value_at(s@, ii) {
            let m0 = choose|m: ValueView| wf_value_view(m) && text_prefix_at(s@, ii, m);
            lemma_prefix_tag(s@, ii, m0);
            lemma_tag_variant(m0);
            lemma_value_text_shape(m0);
        }
    }
    if c == 'n' {
        proof {
            assert(s@.subrange(ii, ii + 1) =~= seq![s@[ii]]);
        }
        return Some((Value::Null, i + 1));
    }
    if c == 't' {
        proof {
            assert(s@.subrange(ii, ii + 1) =~= seq![s@[ii]]);
        }
        return Some((Value::Bool(true), i + 1));
    }
    if c == 'f' {
        proof {
            assert(s@.subrange(ii, ii + 1) =~= seq![s@[ii]]);
        }
        return Some((Value::Bool(false), i + 1));
    }
    if c == 'i' {
        return parse_int_at(s, i);
    }
    if c == 's' {
        return parse_text_at(s, i);
    }
    if c == '[' {
        let mut items: Vec<Value> = Vec::new();
        let mut j = i + 1;
        loop
            invariant
                i + 1 <= j <= s@.len(),
                s@.subrange(ii + 1, j as int) == items_text_of(views_of(items@)),
                some_value_at(s@, ii) ==> ({
                    let m0 = choose|m: ValueView| wf_value_view(m) && text_prefix_at(s@, ii, m);
                    &&& m0 is Arr
                    &&& items@.len() <= m0->Arr_0.len()
                    &&& views_of(items@) == m0->Arr_0.take(items@.len() as int)
                }),
            decreases s@.len() - j,
        {
            proof {
                if some_value_at(s@, ii) {
                    let m0 = choose|m: ValueView| wf_value_view(m) && text_prefix_at(s@, ii, m);
                    let k = items@.len() as int;
                    assert(j == ii + 1 + items_text_of(m0->Arr_0.take(k)).len());
                    lemma_arr_progress(s@, ii, m0, k, j as int);
                }
            }
            if j >= s.len() {
                return None;
            }
            if s[j] == ']' {
                proof {
                    let vs = views_of(items@);
                    assert(value_view(Value::Arr(items)) matches ValueView::Arr(a) && a =~= vs);
                    assert(s@.subrange(ii, j + 1) =~= seq![s@[ii]] + s@.subrange(ii + 1, j as int)
                        + seq![s@[j as int]]);
                }
                return Some((Value::Arr(items), j + 1));
            }
            proof {
                if some_value_at(s@, ii) {
                    let m0 = choose|m: ValueView| wf_value_view(m) && text_prefix_at(s@, ii, m);
                    let k = items@.len() as int;
                    if k == m0->Arr_0.len() {
                        assert(s@[j as int] == ']');
                        assert(false);
                    }
                    assert(some_value_at(s@, j as int)) by {
                        assert(wf_value_view(m0->Arr_0[k]) && text_prefix_at(
                            s@,
                            j as int,
                            m0->Arr_0[k],
                        ));
                    }
                }
            }
            match parse_value_at(s, j) {
                None => {
                    return None;
                },
                Some((v, j2)) => {
                    proof {
                        let vs = views_of(items@);
                        lemma_items_text_snoc(vs, v@);
                        assert(views_of(items@.push(v)) =~= vs.push(v@));
                        assert(s@.subrange(ii + 1, j as int) + s@.subrange(j as int, j2 as int)
                            =~= s@.subrange(ii + 1, j2 as int));
                        if some_value_at(s@, ii) {
                            let m0 = choose|m: ValueView|
                                wf_value_view(m) && text_prefix_at(s@, ii, m);
                            let k = items@.len() as int;
                            lemma_arr_progress(s@, ii, m0, k, j as int);
                            lemma_value_wf(v);
                            lemma_value_text_unique(s@, j as int, v@, m0->Arr_0[k]);
                            assert(vs.push(v@) =~= m0->Arr_0.take(k + 1));
                        }
                    }
                    items.push(v);
                    j = j2;
                },
            }
        }
    }
    if c == '{' {
        let mut pairs: Vec<(Vec<char>, Value)> = Vec::new();
        let mut j = i + 1;
        loop
            invariant
                i + 1 <= j <= s@.len(),
                s@.subrange(ii + 1, j as int) == pairs_text_of(pair_views_of(pairs@)),
                some_value_at(s@, ii) ==> ({
                    let m0 = choose|m: ValueView| wf_value_view(m) && text_prefix_at(s@, ii, m);
                    &&& m0 is Obj
                    &&& pairs@.len() <= m0->Obj_0.len()
                    &&& pair_views_of(pairs@) == m0->Obj_0.take(pairs@.len() as int)
                }),
            decreases s@.len() - j,
        {
            proof {
                if some_value_at(s@, ii) {
                    let m0 = choose|m: ValueView| wf_value_view(m) && text_prefix_at(s@, ii, m);
                    let k = pairs@.len() as int;
                    assert(j == ii + 1 + pairs_text_of(m0->Obj_0.take(k)).len());
                    lemma_obj_progress(s@, ii, m0, k, j as int);
                }
            }
            if j >= s.len() {
                return None;
            }
            if s[j] == '}' {
                proof {
                    let vs = pair_views_of(pairs@);
                    assert(value_view(Value::Obj(pairs)) matches ValueView::Obj(a) && a =~= vs);
                    assert(s@.subrange(ii, j + 1) =~= seq![s@[ii]] + s@.subrange(ii + 1, j as int)
                        + seq![s@[j as int]]);
                }
                return Some((Value::Obj(pairs), j + 1));
            }
            proof {
                if some_value_at(s@, ii) {
                    let m0 = choose|m: ValueView| wf_value_view(m) && text_prefix_at(s@, ii, m);
                    let k = pairs@.len() as int;
                    if k == m0->Obj_0.len() {
                        assert(s@[j as int] == '}');
                        assert(false);
                    }
                }
            }
            match read_digits20(s, j) {
                None => {
                    proof {
                        if some_value_at(s@, ii) {
                            let m0 = choose|m: ValueView|
                                wf_value_view(m) && text_prefix_at(s@, ii, m);
                            let k = pairs@.len() as int;
                            lemma_obj_progress(s@, ii, m0, k, j as int);
                            assert(digits_prefix_at(s@, j as int, m0->Obj_0[k].0.len()));
                        }
                    }
                    return None;
                },
                Some((kl, j1)) => {
                    proof {
                        if some_value_at(s@, ii) {
                            let m0 = choose|m: ValueView|
                                wf_value_view(m) && text_prefix_at(s@, ii, m);
                            let k = pairs@.len() as int;
                            lemma_obj_progress(s@, ii, m0, k, j as int);
                            lemma_digits_at_unique(
                                s@,
                                j as int,
                                m0->Obj_0[k].0.len(),
                                kl as nat,
                            );
                        }
                    }
                    if kl > (s.len() - j1) as u128 {
                        return None;
                    }
                    let l = kl as usize;
                    let mut key: Vec<char> = Vec::new();
                    let mut k: usize = 0;
                    while k < l
                        invariant
                            k <= l,
                            j1 + l <= s@.len(),
                            key@ == s@.subrange(j1 as int, j1 + k),
                        decreases l - k,
                    {
                        key.push(s[j1 + k]);
                        proof {
                            assert(s@.subrange(j1 as int, j1 + k).push(s@[j1 + k]) =~= s@.subrange(
                                j1 as int,
                                j1 + k + 1,
                            ));
                        }
                        k = k + 1;
                    }
                    let j2 = j1 + l;
                    proof {
                        if some_value_at(s@, ii) {
                            let m0 = choose|m: ValueView|
                                wf_value_view(m) && text_prefix_at(s@, ii, m);
                            let kk = pairs@.len() as int;
                            lemma_obj_progress(s@, ii, m0, kk, j as int);
                            assert(some_value_at(s@, j2 as int)) by {
                                assert(wf_value_view(m0->Obj_0[kk].1) && text_prefix_at(
                                    s@,
                                    j2 as int,
                                    m0->Obj_0[kk].1,
                                ));
                            }
                        }
                    }
                    match parse_value_at(s, j2) {
                        None => {
                            return None;
                        },
                        Some((v, j3)) => {
                            proof {
                                let vs = pair_views_of(pairs@);
                                lemma_pairs_text_snoc(vs, (key@, v@));
                                assert(pair_views_of(pairs@.push((key, v))) =~= vs.push(
                                    (key@, v@),
                                ));
                                assert(key@.len() == kl as nat);
                                assert(s@.subrange(j as int, j2 as int) =~= s@.subrange(
                                    j as int,
                                    j1 as int,
                                ) + s@.subrange(j1 as int, j2 as int));
                                assert(s@.subrange(ii + 1, j as int) + (chunk_text_of(key@)
                                    + value_text_of(v@)) =~= s@.subrange(ii + 1, j3 as int));
                                assert(pairs_text_of(vs) + chunk_text_of(key@) + value_text_of(v@)
                                    =~= pairs_text_of(vs) + (chunk_text_of(key@) + value_text_of(
                                    v@,
                                )));
                                if some_value_at(s@, ii) {
                                    let m0 = choose|m: ValueView|
                                        wf_value_view(m) && text_prefix_at(s@, ii, m);
                                    let kk = pairs@.len() as int;
                                    lemma_obj_progress(s@, ii, m0, kk, j as int);
                                    assert(key@ =~= m0->Obj_0[kk].0) by {
                                        let w = m0->Obj_0[kk].0;
                                        assert forall|q: int| 0 <= q < w.len() implies key@[q]
                                            == w[q] by {
                                            assert(s@.subrange(j1 as int, j1 + w.len())[q]
                                                == w[q]);
                                        }
                                    }
                                    lemma_value_wf(v);
                                    lemma_value_text_unique(s@, j2 as int, v@, m0->Obj_0[kk].1);
                                    assert(vs.push((key@, v@)) =~= m0->Obj_0.take(kk + 1));
                                }
                            }
                            pairs.push((key, v));
                            j = j3;
                        },
                    }
                },
            }
        }
    }
    None
}

/// Parses a value from its full canonical text: exactly the canonical
/// texts of representable shapes are accepted, and yield the shape whose
/// text the input is.
pub fn value_from_text(s: &Vec<char>) -> (r: Option<Value>)
    ensures
        r matches Some(v) ==> s@ == value_text_of(v@),
        (exists|m: ValueView| wf_value_view(m) && s@ == value_text_of(m)) ==> r is Some,
{
    proof {
        if exists|m: ValueView| wf_value_view(m) && s@ == value_text_of(m) {
            let m0 = choose|m: ValueView| wf_value_view(m) && s@ == value_text_of(m);
            assert(s@.subrange(0, value_text_of(m0).len() as int) =~= value_text_of(m0));
            assert(some_value_at(s@, 0)) by {
                assert(wf_value_view(m0) && text_prefix_at(s@, 0, m0));
            }
        }
    }
    match parse_value_at(s, 0) {
        None => None,
        Some((v, j)) => {
            if j == s.len() {
                proof {
                    assert(s@.subrange(0, s@.len() as int) =~= s@);
                }
                Some(v)
            } else {
                proof {
                    if exists|m: ValueView| wf_value_view(m) && s@ == value_text_of(m) {
                        let m0 = choose|m: ValueView| wf_value_view(m) && s@ == value_text_of(m);
                        assert(s@.subrange(0, value_text_of(m0).len() as int) =~= value_text_of(
                            m0,
                        ));
                        assert(s@.subrange(0, j as int) =~= value_text_of(v@));
                        lemma_value_wf(v);
                        lemma_value_text_unique(s@, 0, v@, m0);
                        assert(false);
                    }
                }
                None
            }
        },
    }
}

/// Serializes a value into its canonical text form.
pub fn value_to_text(v: &Value) -> (r: Vec<char>)
    ensures
        r@ == value_text_of(v@),
{
    let mut out: Vec<char> = Vec::new();
    push_value_text(v, &mut out);
    proof {
        assert(Seq::<char>::empty() + value_text_of(v@) =~= value_text_of(v@));
    }
    out
}

} // verus!
