//! Why a text can be read back: what was written is fixed by its text.

use crate::scalar::{decimal_digits, digit, digits_value, fraction_digits, fraction_text,
    lemma_decimal_digits_value, ten_to, Scalar};
use vstd::arithmetic::power2::{lemma2_to64, lemma_pow2_adds, lemma_pow2_pos,
    lemma_pow2_strictly_increases, lemma_pow2_unfold, pow2};
use crate::document::DocumentView;
use crate::record::RecordView;
use crate::serialize::{array_text, deeper, document_members, document_text, escaped,
    escaped_byte, forest_finite, hex_digit, line, listed, member, node_finite, node_items,
    node_members, node_text, number_items, object_text, quoted, string_items};
use crate::transform::all_finite;
use vstd::prelude::*;
use vstd::utf8::{encode_utf8, encode_utf8_decode_utf8};

verus! {

/// A byte that can stand in the text of a number: a digit, the point, the
/// minus sign.
pub open spec fn number_byte(b: u8) -> bool {
    48 <= b <= 57 || b == 45 || b == 46
}

/// Every byte is a decimal digit.
pub open spec fn all_digits(s: Seq<u8>) -> bool {
    forall|i: int| 0 <= i < s.len() ==> 48 <= #[trigger] s[i] <= 57
}

/// The digits of a number are digits, and there is at least one.
pub proof fn lemma_decimal_digits_shape(n: nat)
    ensures
        decimal_digits(n).len() >= 1,
        all_digits(decimal_digits(n)),
    decreases n,
{
    if n >= 10 {
        lemma_decimal_digits_shape(n / 10);
    }
}

/// The digits of a fraction are digits.
pub proof fn lemma_fraction_digits_shape(r: nat, k: nat)
    requires
        r < pow2(k),
    ensures
        all_digits(fraction_digits(r, k)),
        r != 0 ==> fraction_digits(r, k).len() >= 1,
    decreases k,
{
    if k == 0 {
        assert(pow2(0) == 1) by {
            lemma2_to64();
        }
    } else if r != 0 {
        let p = pow2((k - 1) as nat);
        lemma_pow2_unfold(k);
        lemma_pow2_pos((k - 1) as nat);
        let first = 5 * r / p;
        vstd::arithmetic::div_mod::lemma_mod_bound((5 * r) as int, p as int);
        assert(first < 10) by (nonlinear_arith)
            requires
                first == 5 * r / p,
                r < 2 * p,
                p > 0,
        ;
        lemma_fraction_digits_shape(5 * r % p, (k - 1) as nat);
        let rest = fraction_digits(5 * r % p, (k - 1) as nat);
        let all = fraction_digits(r, k);
        assert forall|i: int| 0 <= i < all.len() implies 48 <= #[trigger] all[i] <= 57 by {
            if i > 0 {
                assert(all[i] == rest[i - 1]);
            }
        }
    }
}

/// Two texts that agree up to and after the first occurrence of a mark agree
/// before it and after it.
pub proof fn lemma_split_at_mark(
    x1: Seq<u8>,
    y1: Seq<u8>,
    x2: Seq<u8>,
    y2: Seq<u8>,
    mark: u8,
)
    requires
        x1 + seq![mark] + y1 == x2 + seq![mark] + y2,
        forall|i: int| 0 <= i < x1.len() ==> x1[i] != mark,
        forall|i: int| 0 <= i < x2.len() ==> x2[i] != mark,
    ensures
        x1 == x2,
        y1 == y2,
{
    let left = x1 + seq![mark] + y1;
    let right = x2 + seq![mark] + y2;
    if x1.len() < x2.len() {
        assert(left[x1.len() as int] == mark);
        assert(right[x1.len() as int] == x2[x1.len() as int]);
    }
    if x2.len() < x1.len() {
        assert(right[x2.len() as int] == mark);
        assert(left[x2.len() as int] == x1[x2.len() as int]);
    }
    assert(x1 =~= x2) by {
        assert forall|i: int| 0 <= i < x1.len() implies x1[i] == x2[i] by {
            assert(left[i] == x1[i]);
            assert(right[i] == x2[i]);
        }
    }
    assert(left.len() == x1.len() + 1 + y1.len());
    assert(right.len() == x2.len() + 1 + y2.len());
    assert(y1.len() == y2.len());
    assert forall|i: int| 0 <= i < y1.len() implies y1[i] == y2[i] by {
        assert(left[x1.len() + 1 + i] == y1[i]);
        assert(right[x2.len() + 1 + i] == y2[i]);
    }
    assert(y1 =~= y2);
}

impl Scalar {
    /// The power of two by which the significand is multiplied to give the
    /// magnitude times `2^149`, a whole number.
    pub open spec fn lift(self) -> nat {
        if self.exponent_field() == 0 {
            0
        } else {
            (self.exponent_field() - 1) as nat
        }
    }

    /// The magnitude times `2^149`.
    pub open spec fn scaled(self) -> nat {
        self.significand() * pow2(self.lift())
    }

    /// The digits before the point.
    pub open spec fn whole_text(self) -> Seq<u8> {
        decimal_digits(self.whole())
    }

    /// The digits after the point.
    pub open spec fn part_text(self) -> Seq<u8> {
        fraction_text(self.part(), self.down())
    }

    /// The fractional part is a fraction: its numerator is below `2^down`.
    pub proof fn lemma_part_below(self)
        ensures
            self.part() < pow2(self.down()),
            self.significand() * pow2(self.up()) == self.whole() * pow2(self.down()) + self.part(),
    {
        let value = self.significand() * pow2(self.up());
        let p = pow2(self.down());
        lemma_pow2_pos(self.down());
        vstd::arithmetic::div_mod::lemma_fundamental_div_mod(value as int, p as int);
        vstd::arithmetic::div_mod::lemma_mod_bound(value as int, p as int);
        assert(p * (value / p) == (value / p) * p) by (nonlinear_arith);
    }

    /// The text of a finite number is a minus sign or nothing, digits, a
    /// point, digits.
    pub proof fn lemma_text_shape(self)
        requires
            self.finite(),
        ensures
            all_digits(self.whole_text()),
            self.whole_text().len() >= 1,
            all_digits(self.part_text()),
            self.part_text().len() >= 1,
            forall|i: int|
                0 <= i < self.decimal_text().len() ==> number_byte(#[trigger] self.decimal_text()[i]),
    {
        lemma_decimal_digits_shape(self.whole());
        self.lemma_part_below();
        lemma_fraction_digits_shape(self.part(), self.down());
    }

    /// The digits of the text give the magnitude: with `w` the value of the
    /// digits before the point and `f` the value of the `n` digits after it,
    /// `(w * 10^n + f) * 2^149` is the scaled magnitude times `10^n`.
    pub proof fn lemma_scaled_from_text(self)
        requires
            self.finite(),
        ensures
            ({
                let w = digits_value(self.whole_text());
                let f = digits_value(self.part_text());
                let scale = ten_to(self.part_text().len());
                (w * scale + f) * pow2(149) == self.scaled() * scale
            }),
    {
        let w = digits_value(self.whole_text());
        let f = digits_value(self.part_text());
        let scale = ten_to(self.part_text().len());
        self.lemma_decimal_text_exact();
        let e = self.exponent_field();
        let up = self.up();
        let down = self.down();
        let lift = self.lift();
        let sig = self.significand();
        assert(down <= 149);
        assert(up + 149 == lift + down);
        lemma_pow2_adds(up, 149);
        lemma_pow2_adds(lift, down);
        lemma_pow2_adds(down, (149 - down) as nat);
        let pd = pow2(down);
        let rest = pow2((149 - down) as nat);
        let pu = pow2(up);
        let pl = pow2(lift);
        lemma_pow2_pos(down);
        assert(pu * pow2(149) == pl * pd);
        assert((w * scale + f) * (pd * rest) == (sig * pl) * scale * 1) by (nonlinear_arith)
            requires
                (w * scale + f) * pd == sig * pu * scale,
                pu * (pd * rest) == pl * pd,
                pd > 0,
        ;
    }
}

/// Ten to any power is positive.
pub proof fn lemma_ten_to_positive(n: nat)
    ensures
        ten_to(n) > 0,
    decreases n,
{
    if n > 0 {
        lemma_ten_to_positive((n - 1) as nat);
    }
}

/// The scaled magnitude of a finite number fixes its exponent and fraction
/// bits: a number with the smaller exponent has the smaller magnitude.
proof fn lemma_scaled_orders(a: Scalar, b: Scalar)
    requires
        a.finite(),
        b.finite(),
        a.exponent_field() < b.exponent_field(),
    ensures
        a.scaled() < b.scaled(),
{
    let ea = a.exponent_field();
    let eb = b.exponent_field();
    lemma2_to64();
    if ea == 0 {
        lemma_pow2_pos(b.lift());
        assert(a.scaled() == a.significand() * 1);
        assert(b.significand() * pow2(b.lift()) >= b.significand()) by (nonlinear_arith)
            requires
                pow2(b.lift()) >= 1,
        ;
    } else {
        let la = a.lift();
        let lb = b.lift();
        lemma_pow2_pos(la);
        lemma_pow2_unfold(la + 1);
        if la + 1 < lb {
            lemma_pow2_strictly_increases(la + 1, lb);
        }
        let pa = pow2(la);
        let pb = pow2(lb);
        assert(a.significand() * pa < b.significand() * pb) by (nonlinear_arith)
            requires
                a.significand() < 0x100_0000,
                b.significand() >= 0x80_0000,
                pb >= 2 * pa,
                pa > 0,
        ;
    }
}

/// Finite numbers with the same sign and the same scaled magnitude are the
/// same number.
proof fn lemma_same_scaled_same_bits(a: Scalar, b: Scalar)
    requires
        a.finite(),
        b.finite(),
        a.negative() == b.negative(),
        a.scaled() == b.scaled(),
    ensures
        a == b,
{
    if a.exponent_field() < b.exponent_field() {
        lemma_scaled_orders(a, b);
    } else if b.exponent_field() < a.exponent_field() {
        lemma_scaled_orders(b, a);
    } else {
        let p = pow2(a.lift());
        lemma_pow2_pos(a.lift());
        assert(a.significand() == b.significand()) by (nonlinear_arith)
            requires
                a.significand() * p == b.significand() * p,
                p > 0,
        ;
        assert(a.fraction_field() == b.fraction_field());
        assert(a.bits == b.bits);
    }
}

/// Different finite numbers have different texts.
pub proof fn lemma_decimal_text_unique(a: Scalar, b: Scalar)
    requires
        a.finite(),
        b.finite(),
        a.decimal_text() == b.decimal_text(),
    ensures
        a == b,
{
    a.lemma_text_shape();
    b.lemma_text_shape();
    let sign_a = if a.negative() {
        seq![45u8]
    } else {
        Seq::<u8>::empty()
    };
    let sign_b = if b.negative() {
        seq![45u8]
    } else {
        Seq::<u8>::empty()
    };
    let front_a = sign_a + a.whole_text();
    let front_b = sign_b + b.whole_text();
    assert(a.decimal_text() == front_a + seq![46u8] + a.part_text());
    assert(b.decimal_text() == front_b + seq![46u8] + b.part_text());
    assert forall|i: int| 0 <= i < front_a.len() implies front_a[i] != 46u8 by {
        if a.negative() && i > 0 {
            assert(front_a[i] == a.whole_text()[i - 1]);
        } else if !a.negative() {
            assert(front_a[i] == a.whole_text()[i]);
        }
    }
    assert forall|i: int| 0 <= i < front_b.len() implies front_b[i] != 46u8 by {
        if b.negative() && i > 0 {
            assert(front_b[i] == b.whole_text()[i - 1]);
        } else if !b.negative() {
            assert(front_b[i] == b.whole_text()[i]);
        }
    }
    lemma_split_at_mark(front_a, a.part_text(), front_b, b.part_text(), 46u8);
    assert(a.negative() == b.negative()) by {
        if a.negative() && !b.negative() {
            assert(front_a[0] == 45u8);
            assert(front_b[0] == b.whole_text()[0]);
        }
        if b.negative() && !a.negative() {
            assert(front_b[0] == 45u8);
            assert(front_a[0] == a.whole_text()[0]);
        }
    }
    assert(a.whole_text() =~= b.whole_text()) by {
        assert forall|i: int| 0 <= i < a.whole_text().len() implies a.whole_text()[i]
            == b.whole_text()[i] by {
            if a.negative() {
                assert(front_a[i + 1] == a.whole_text()[i]);
                assert(front_b[i + 1] == b.whole_text()[i]);
            } else {
                assert(front_a[i] == a.whole_text()[i]);
                assert(front_b[i] == b.whole_text()[i]);
            }
        }
    }
    a.lemma_scaled_from_text();
    b.lemma_scaled_from_text();
    let scale = ten_to(a.part_text().len());
    lemma_ten_to_positive(a.part_text().len());
    assert(a.scaled() == b.scaled()) by (nonlinear_arith)
        requires
            a.scaled() * scale == b.scaled() * scale,
            scale > 0,
    ;
    lemma_same_scaled_same_bits(a, b);
}

/// What follows a common beginning is the same where the wholes are the same.
pub proof fn lemma_cancel_front(front: Seq<u8>, u: Seq<u8>, v: Seq<u8>)
    requires
        front + u == front + v,
    ensures
        u == v,
{
    let left = front + u;
    let right = front + v;
    assert(left.len() == front.len() + u.len());
    assert(right.len() == front.len() + v.len());
    assert(u.len() == v.len());
    assert forall|i: int| 0 <= i < u.len() implies u[i] == v[i] by {
        assert(left[front.len() + i] == u[i]);
        assert(right[front.len() + i] == v[i]);
    }
    assert(u =~= v);
}

/// The escape of a string is the escape of its first byte, then the escape of
/// the rest.
pub proof fn lemma_escaped_front(x: Seq<u8>)
    requires
        x.len() > 0,
    ensures
        escaped(x) == escaped_byte(x[0]) + escaped(x.skip(1)),
    decreases x.len(),
{
    if x.len() == 1 {
        assert(x.drop_last() =~= Seq::<u8>::empty());
        assert(x.skip(1) =~= Seq::<u8>::empty());
        assert(escaped(Seq::<u8>::empty()) =~= Seq::<u8>::empty());
        assert(escaped(x) =~= escaped_byte(x[0]) + escaped(x.skip(1)));
    } else {
        let shorter = x.drop_last();
        lemma_escaped_front(shorter);
        assert(shorter.skip(1) =~= x.skip(1).drop_last());
        assert(x.skip(1).last() == x.last());
        assert(escaped(x) =~= escaped_byte(x[0]) + escaped(x.skip(1)));
    }
}

/// The escape of a byte tells the byte, and where the escape ends.
pub proof fn lemma_escaped_byte_unique(b1: u8, b2: u8, u: Seq<u8>, v: Seq<u8>)
    requires
        escaped_byte(b1) + u == escaped_byte(b2) + v,
    ensures
        b1 == b2,
        u == v,
{
    let c1 = escaped_byte(b1);
    let c2 = escaped_byte(b2);
    let left = c1 + u;
    let right = c2 + v;
    assert(left[0] == c1[0] && right[0] == c2[0]);
    if c1[0] == 92 {
        assert(left[1] == c1[1] && right[1] == c2[1]);
        if c1[1] == 117 {
            assert(left[4] == c1[4] && right[4] == c2[4]);
            assert(left[5] == c1[5] && right[5] == c2[5]);
            assert(hex_digit(b1 / 16) == hex_digit(b2 / 16));
            assert(hex_digit(b1 % 16) == hex_digit(b2 % 16));
            assert(b1 / 16 == b2 / 16);
            assert(b1 % 16 == b2 % 16);
        }
    }
    assert(b1 == b2);
    lemma_cancel_front(c1, u, v);
}

/// The escape of a string, closed by a quote, tells the string and where the
/// quote stands.
#[verifier::rlimit(50)]
pub proof fn lemma_escaped_unique(x: Seq<u8>, y: Seq<u8>, s: Seq<u8>, t: Seq<u8>)
    requires
        escaped(x) + seq![34u8] + s == escaped(y) + seq![34u8] + t,
    ensures
        x == y,
        s == t,
    decreases x.len(),
{
    let left = escaped(x) + seq![34u8] + s;
    let right = escaped(y) + seq![34u8] + t;
    if x.len() == 0 && y.len() == 0 {
        assert(escaped(x) =~= Seq::<u8>::empty());
        assert(escaped(y) =~= Seq::<u8>::empty());
        assert(left =~= seq![34u8] + s);
        assert(right =~= seq![34u8] + t);
        lemma_cancel_front(seq![34u8], s, t);
        assert(x =~= y);
    } else if x.len() == 0 {
        lemma_escaped_front(y);
        assert(escaped(x) =~= Seq::<u8>::empty());
        assert(left[0] == 34u8);
        assert(right[0] == escaped_byte(y[0])[0]);
    } else if y.len() == 0 {
        lemma_escaped_front(x);
        assert(escaped(y) =~= Seq::<u8>::empty());
        assert(right[0] == 34u8);
        assert(left[0] == escaped_byte(x[0])[0]);
    } else {
        lemma_escaped_front(x);
        lemma_escaped_front(y);
        let more_x = escaped(x.skip(1)) + seq![34u8] + s;
        let more_y = escaped(y.skip(1)) + seq![34u8] + t;
        assert(left =~= escaped_byte(x[0]) + more_x);
        assert(right =~= escaped_byte(y[0]) + more_y);
        lemma_escaped_byte_unique(x[0], y[0], more_x, more_y);
        lemma_escaped_unique(x.skip(1), y.skip(1), s, t);
        assert(x =~= seq![x[0]] + x.skip(1));
        assert(y =~= seq![y[0]] + y.skip(1));
    }
}

/// A string literal tells its text, and where it ends: of two literals
/// neither is the beginning of the other.
pub proof fn lemma_quoted_unique(a: Seq<char>, b: Seq<char>, s: Seq<u8>, t: Seq<u8>)
    requires
        quoted(a) + s == quoted(b) + t,
    ensures
        a == b,
        s == t,
{
    let x = encode_utf8(a);
    let y = encode_utf8(b);
    let more_x = escaped(x) + seq![34u8] + s;
    let more_y = escaped(y) + seq![34u8] + t;
    assert(quoted(a) + s =~= seq![34u8] + more_x);
    assert(quoted(b) + t =~= seq![34u8] + more_y);
    lemma_cancel_front(seq![34u8], more_x, more_y);
    lemma_escaped_unique(x, y, s, t);
    encode_utf8_decode_utf8(a);
    encode_utf8_decode_utf8(b);
}

/// A text that begins with a line break or a comma, as does all that follows
/// an item of a list.
pub open spec fn after_item(u: Seq<u8>) -> bool {
    u.len() > 0 && (u[0] == 10 || u[0] == 44)
}

/// Inside a list neither of the two items can be taken for the other: where
/// each is followed by what may follow an item and the wholes are the same,
/// the items are the same, and so is what follows.
pub open spec fn told_apart(x: Seq<u8>, y: Seq<u8>) -> bool {
    forall|u: Seq<u8>, v: Seq<u8>|
        #![trigger x.add(u), y.add(v)]
        after_item(u) && after_item(v) && x.add(u) == y.add(v) ==> x == y && u == v
}

/// Each item of the one list can be told apart from the item at the same place
/// of the other.
pub open spec fn items_told_apart(a: Seq<Seq<u8>>, b: Seq<Seq<u8>>) -> bool {
    forall|i: int| #![trigger a[i]] 0 <= i < a.len() && i < b.len() ==> told_apart(a[i], b[i])
}

/// What `told_apart` says, of one pair of continuations.
pub proof fn lemma_use_told_apart(x: Seq<u8>, y: Seq<u8>, u: Seq<u8>, v: Seq<u8>)
    requires
        told_apart(x, y),
        after_item(u),
        after_item(v),
        x + u == y + v,
    ensures
        x == y,
        u == v,
{
    assert(x.add(u) == y.add(v));
}

/// Texts made of number bytes, each followed by a byte that is none, are the
/// same where the wholes are the same.
pub proof fn lemma_delimited_numbers(x: Seq<u8>, u: Seq<u8>, y: Seq<u8>, v: Seq<u8>)
    requires
        forall|i: int| 0 <= i < x.len() ==> number_byte(#[trigger] x[i]),
        forall|i: int| 0 <= i < y.len() ==> number_byte(#[trigger] y[i]),
        after_item(u),
        after_item(v),
        x + u == y + v,
    ensures
        x == y,
        u == v,
{
    let left = x + u;
    let right = y + v;
    if x.len() < y.len() {
        assert(left[x.len() as int] == u[0]);
        assert(right[x.len() as int] == y[x.len() as int]);
    }
    if y.len() < x.len() {
        assert(right[y.len() as int] == v[0]);
        assert(left[y.len() as int] == x[y.len() as int]);
    }
    assert forall|i: int| 0 <= i < x.len() implies x[i] == y[i] by {
        assert(left[i] == x[i]);
        assert(right[i] == y[i]);
    }
    assert(x =~= y);
    lemma_cancel_front(x, u, v);
}

/// Inside a list the texts of two finite numbers can be told apart.
pub proof fn lemma_numbers_told_apart(a: Scalar, b: Scalar)
    requires
        a.finite(),
        b.finite(),
    ensures
        told_apart(a.decimal_text(), b.decimal_text()),
{
    let x = a.decimal_text();
    let y = b.decimal_text();
    a.lemma_text_shape();
    b.lemma_text_shape();
    assert forall|u: Seq<u8>, v: Seq<u8>|
        #![trigger x.add(u), y.add(v)]
        after_item(u) && after_item(v) && x.add(u) == y.add(v) implies x == y && u == v by {
        lemma_delimited_numbers(x, u, y, v);
    }
}

/// The items of a list after its first: each after a comma and a line break.
pub open spec fn continued(items: Seq<Seq<u8>>, pad: Seq<u8>) -> Seq<u8>
    decreases items.len(),
{
    if items.len() == 0 {
        Seq::<u8>::empty()
    } else {
        seq![44u8] + line(pad) + items[0] + continued(items.skip(1), pad)
    }
}

/// One more item at the end of a continuation.
proof fn lemma_continued_push(items: Seq<Seq<u8>>, x: Seq<u8>, pad: Seq<u8>)
    ensures
        continued(items.push(x), pad) == continued(items, pad) + seq![44u8] + line(pad) + x,
    decreases items.len(),
{
    let longer = items.push(x);
    if items.len() == 0 {
        assert(longer.skip(1) =~= Seq::<Seq<u8>>::empty());
        assert(continued(longer.skip(1), pad) =~= Seq::<u8>::empty());
        assert(continued(longer, pad) =~= continued(items, pad) + seq![44u8] + line(pad) + x);
    } else {
        lemma_continued_push(items.skip(1), x, pad);
        assert(longer.skip(1) =~= items.skip(1).push(x));
        assert(longer[0] == items[0]);
        assert(continued(longer, pad) =~= continued(items, pad) + seq![44u8] + line(pad) + x);
    }
}

/// A list read from its beginning: the first item after a line break, then
/// the others.
pub proof fn lemma_listed_front(items: Seq<Seq<u8>>, pad: Seq<u8>)
    requires
        items.len() > 0,
    ensures
        listed(items, pad) == line(pad) + items[0] + continued(items.skip(1), pad),
    decreases items.len(),
{
    if items.len() == 1 {
        assert(items.drop_last() =~= Seq::<Seq<u8>>::empty());
        assert(items.skip(1) =~= Seq::<Seq<u8>>::empty());
        assert(listed(items.drop_last(), pad) =~= Seq::<u8>::empty());
        assert(continued(items.skip(1), pad) =~= Seq::<u8>::empty());
        assert(listed(items, pad) =~= line(pad) + items[0] + continued(items.skip(1), pad));
    } else {
        let shorter = items.drop_last();
        lemma_listed_front(shorter, pad);
        lemma_continued_push(shorter.skip(1), items.last(), pad);
        assert(shorter.skip(1).push(items.last()) =~= items.skip(1));
        assert(shorter[0] == items[0]);
        assert(listed(items, pad) =~= line(pad) + items[0] + continued(items.skip(1), pad));
    }
}

/// The items after the first, followed by a line break, tell what they are.
#[verifier::rlimit(50)]
proof fn lemma_continued_unique(
    a: Seq<Seq<u8>>,
    b: Seq<Seq<u8>>,
    pad: Seq<u8>,
    s: Seq<u8>,
    t: Seq<u8>,
)
    requires
        items_told_apart(a, b),
        continued(a, pad) + s == continued(b, pad) + t,
        s.len() > 0 && s[0] == 10,
        t.len() > 0 && t[0] == 10,
    ensures
        a == b,
        s == t,
    decreases a.len(),
{
    let left = continued(a, pad) + s;
    let right = continued(b, pad) + t;
    if a.len() == 0 && b.len() == 0 {
        assert(a =~= b);
        assert(left =~= s);
        assert(right =~= t);
    } else if a.len() == 0 {
        assert(left =~= s);
        assert(right[0] == 44u8);
    } else if b.len() == 0 {
        assert(right =~= t);
        assert(left[0] == 44u8);
    } else {
        let front = seq![44u8] + line(pad);
        let rest_a = continued(a.skip(1), pad) + s;
        let rest_b = continued(b.skip(1), pad) + t;
        assert(left =~= front + (a[0] + rest_a));
        assert(right =~= front + (b[0] + rest_b));
        lemma_cancel_front(front, a[0] + rest_a, b[0] + rest_b);
        assert(after_item(rest_a)) by {
            if a.len() == 1 {
                assert(a.skip(1) =~= Seq::<Seq<u8>>::empty());
                assert(rest_a =~= s);
            } else {
                assert(rest_a[0] == 44u8);
            }
        }
        assert(after_item(rest_b)) by {
            if b.len() == 1 {
                assert(b.skip(1) =~= Seq::<Seq<u8>>::empty());
                assert(rest_b =~= t);
            } else {
                assert(rest_b[0] == 44u8);
            }
        }
        assert(told_apart(a[0], b[0]));
        lemma_use_told_apart(a[0], b[0], rest_a, rest_b);
        lemma_rest_told_apart(a, b);
        lemma_continued_unique(a.skip(1), b.skip(1), pad, s, t);
        assert(a =~= seq![a[0]] + a.skip(1));
        assert(b =~= seq![b[0]] + b.skip(1));
    }
}

/// A list with at least one item, between an opening and a closing byte.
pub open spec fn enclosed(open: u8, close: u8, items: Seq<Seq<u8>>, pad: Seq<u8>) -> Seq<u8> {
    seq![open] + listed(items, deeper(pad)) + line(pad) + seq![close]
}

/// A list between its opening and closing bytes, read from its beginning: the
/// opening byte and a line break, the first item, and then what may follow an
/// item.
proof fn lemma_enclosed_front(
    open: u8,
    close: u8,
    a: Seq<Seq<u8>>,
    pad: Seq<u8>,
    s: Seq<u8>,
)
    requires
        a.len() > 0,
    ensures
        enclosed(open, close, a, pad) + s == (seq![open] + line(deeper(pad))) + (a[0] + (continued(
            a.skip(1),
            deeper(pad),
        ) + (line(pad) + seq![close] + s))),
        after_item(continued(a.skip(1), deeper(pad)) + (line(pad) + seq![close] + s)),
{
    let inner = deeper(pad);
    let tail = line(pad) + seq![close] + s;
    let rest = continued(a.skip(1), inner) + tail;
    lemma_listed_front(a, inner);
    assert(enclosed(open, close, a, pad) + s =~= (seq![open] + line(inner)) + (a[0] + rest));
    assert(tail[0] == 10u8);
    if a.len() == 1 {
        assert(a.skip(1) =~= Seq::<Seq<u8>>::empty());
        assert(rest =~= tail);
    } else {
        assert(rest[0] == 44u8);
    }
}

/// The items after the first of two lists can be told apart where the items
/// of the lists can.
proof fn lemma_rest_told_apart(a: Seq<Seq<u8>>, b: Seq<Seq<u8>>)
    requires
        a.len() > 0,
        b.len() > 0,
        items_told_apart(a, b),
    ensures
        items_told_apart(a.skip(1), b.skip(1)),
{
    assert forall|i: int|
        #![trigger a.skip(1)[i]]
        0 <= i < a.skip(1).len() && i < b.skip(1).len() implies told_apart(
        a.skip(1)[i],
        b.skip(1)[i],
    ) by {
        assert(told_apart(a[i + 1], b[i + 1]));
    }
}

/// A list between its opening and closing bytes tells its items and where it
/// ends.
#[verifier::rlimit(50)]
pub proof fn lemma_enclosed_unique(
    open: u8,
    close: u8,
    a: Seq<Seq<u8>>,
    b: Seq<Seq<u8>>,
    pad: Seq<u8>,
    s: Seq<u8>,
    t: Seq<u8>,
)
    requires
        a.len() > 0,
        b.len() > 0,
        items_told_apart(a, b),
        enclosed(open, close, a, pad) + s == enclosed(open, close, b, pad) + t,
    ensures
        a == b,
        s == t,
{
    let inner = deeper(pad);
    let front = seq![open] + line(inner);
    let end = line(pad) + seq![close];
    let tail_a = end + s;
    let tail_b = end + t;
    let rest_a = continued(a.skip(1), inner) + tail_a;
    let rest_b = continued(b.skip(1), inner) + tail_b;
    lemma_enclosed_front(open, close, a, pad, s);
    lemma_enclosed_front(open, close, b, pad, t);
    lemma_cancel_front(front, a[0] + rest_a, b[0] + rest_b);
    assert(told_apart(a[0], b[0]));
    lemma_use_told_apart(a[0], b[0], rest_a, rest_b);
    lemma_rest_told_apart(a, b);
    assert(tail_a[0] == 10u8 && tail_b[0] == 10u8);
    lemma_continued_unique(a.skip(1), b.skip(1), inner, tail_a, tail_b);
    lemma_cancel_front(end, s, t);
    assert(a =~= seq![a[0]] + a.skip(1));
    assert(b =~= seq![b[0]] + b.skip(1));
}

/// An array tells its items and where it ends.
pub proof fn lemma_array_unique(
    a: Seq<Seq<u8>>,
    b: Seq<Seq<u8>>,
    pad: Seq<u8>,
    s: Seq<u8>,
    t: Seq<u8>,
)
    requires
        items_told_apart(a, b),
        array_text(a, pad) + s == array_text(b, pad) + t,
    ensures
        a == b,
        s == t,
{
    let left = array_text(a, pad) + s;
    let right = array_text(b, pad) + t;
    if a.len() == 0 && b.len() == 0 {
        assert(a =~= b);
        lemma_cancel_front(seq![91u8, 93u8], s, t);
    } else if a.len() == 0 {
        lemma_listed_front(b, deeper(pad));
        assert(left[1] == 93u8);
        assert(right[1] == 10u8);
    } else if b.len() == 0 {
        lemma_listed_front(a, deeper(pad));
        assert(right[1] == 93u8);
        assert(left[1] == 10u8);
    } else {
        assert(array_text(a, pad) == enclosed(91u8, 93u8, a, pad));
        assert(array_text(b, pad) == enclosed(91u8, 93u8, b, pad));
        lemma_enclosed_unique(91u8, 93u8, a, b, pad, s, t);
    }
}

/// An object tells its members and where it ends.
pub proof fn lemma_object_unique(
    a: Seq<Seq<u8>>,
    b: Seq<Seq<u8>>,
    pad: Seq<u8>,
    s: Seq<u8>,
    t: Seq<u8>,
)
    requires
        a.len() > 0,
        b.len() > 0,
        items_told_apart(a, b),
        object_text(a, pad) + s == object_text(b, pad) + t,
    ensures
        a == b,
        s == t,
{
    assert(object_text(a, pad) == enclosed(123u8, 125u8, a, pad));
    assert(object_text(b, pad) == enclosed(123u8, 125u8, b, pad));
    lemma_enclosed_unique(123u8, 125u8, a, b, pad, s, t);
}

/// A text is what it is followed by nothing.
proof fn lemma_nothing_after(x: Seq<u8>)
    ensures
        x + Seq::<u8>::empty() == x,
{
    assert(x + Seq::<u8>::empty() =~= x);
}

/// Inside a list two string literals can be told apart.
pub proof fn lemma_strings_told_apart(a: Seq<char>, b: Seq<char>)
    ensures
        told_apart(quoted(a), quoted(b)),
{
    let x = quoted(a);
    let y = quoted(b);
    assert forall|u: Seq<u8>, v: Seq<u8>|
        #![trigger x.add(u), y.add(v)]
        after_item(u) && after_item(v) && x.add(u) == y.add(v) implies x == y && u == v by {
        lemma_quoted_unique(a, b, u, v);
    }
}

/// Inside a list two arrays can be told apart where their items can.
pub proof fn lemma_arrays_told_apart(a: Seq<Seq<u8>>, b: Seq<Seq<u8>>, pad: Seq<u8>)
    requires
        items_told_apart(a, b),
    ensures
        told_apart(array_text(a, pad), array_text(b, pad)),
{
    let x = array_text(a, pad);
    let y = array_text(b, pad);
    assert forall|u: Seq<u8>, v: Seq<u8>|
        #![trigger x.add(u), y.add(v)]
        after_item(u) && after_item(v) && x.add(u) == y.add(v) implies x == y && u == v by {
        lemma_array_unique(a, b, pad, u, v);
    }
}

/// Two members under the same key can be told apart where their values can.
pub proof fn lemma_members_told_apart(key: Seq<char>, a: Seq<u8>, b: Seq<u8>)
    requires
        told_apart(a, b),
    ensures
        told_apart(member(key, a), member(key, b)),
{
    let x = member(key, a);
    let y = member(key, b);
    let front = quoted(key) + seq![58u8, 32u8];
    assert forall|u: Seq<u8>, v: Seq<u8>|
        #![trigger x.add(u), y.add(v)]
        after_item(u) && after_item(v) && x.add(u) == y.add(v) implies x == y && u == v by {
        assert(x + u =~= front + (a + u));
        assert(y + v =~= front + (b + v));
        lemma_cancel_front(front, a + u, b + v);
        lemma_use_told_apart(a, b, u, v);
    }
}

/// Members under the same key with the same text have the same value.
pub proof fn lemma_member_value(key: Seq<char>, a: Seq<u8>, b: Seq<u8>)
    requires
        member(key, a) == member(key, b),
    ensures
        a == b,
{
    let front = quoted(key) + seq![58u8, 32u8];
    assert(member(key, a) =~= front + a);
    assert(member(key, b) =~= front + b);
    lemma_cancel_front(front, a, b);
}

/// The texts of the numbers of two lists can be told apart, item by item.
pub proof fn lemma_number_items_told_apart(a: Seq<Scalar>, b: Seq<Scalar>)
    requires
        all_finite(a),
        all_finite(b),
    ensures
        items_told_apart(number_items(a), number_items(b)),
{
    let x = number_items(a);
    let y = number_items(b);
    assert forall|i: int| #![trigger x[i]] 0 <= i < x.len() && i < y.len() implies told_apart(
        x[i],
        y[i],
    ) by {
        assert(a[i].finite() && b[i].finite());
        lemma_numbers_told_apart(a[i], b[i]);
    }
}

/// An array of finite numbers tells its numbers.
pub proof fn lemma_number_array_unique(a: Seq<Scalar>, b: Seq<Scalar>, pad: Seq<u8>)
    requires
        all_finite(a),
        all_finite(b),
        array_text(number_items(a), pad) == array_text(number_items(b), pad),
    ensures
        a == b,
{
    let x = number_items(a);
    let y = number_items(b);
    lemma_number_items_told_apart(a, b);
    lemma_nothing_after(array_text(x, pad));
    lemma_nothing_after(array_text(y, pad));
    lemma_array_unique(x, y, pad, Seq::<u8>::empty(), Seq::<u8>::empty());
    assert forall|i: int| 0 <= i < a.len() implies a[i] == b[i] by {
        assert(x[i] == y[i]);
        assert(a[i].finite() && b[i].finite());
        lemma_decimal_text_unique(a[i], b[i]);
    }
    assert(a.len() == x.len() && b.len() == y.len());
    assert(a =~= b);
}

/// An array of string literals tells its texts.
pub proof fn lemma_string_array_unique(a: Seq<Seq<char>>, b: Seq<Seq<char>>, pad: Seq<u8>)
    requires
        array_text(string_items(a), pad) == array_text(string_items(b), pad),
    ensures
        a == b,
{
    let x = string_items(a);
    let y = string_items(b);
    assert forall|i: int| #![trigger x[i]] 0 <= i < x.len() && i < y.len() implies told_apart(
        x[i],
        y[i],
    ) by {
        lemma_strings_told_apart(a[i], b[i]);
    }
    lemma_nothing_after(array_text(x, pad));
    lemma_nothing_after(array_text(y, pad));
    lemma_array_unique(x, y, pad, Seq::<u8>::empty(), Seq::<u8>::empty());
    assert forall|i: int| 0 <= i < a.len() implies a[i] == b[i] by {
        assert(x[i] == y[i]);
        lemma_nothing_after(quoted(a[i]));
        lemma_nothing_after(quoted(b[i]));
        lemma_quoted_unique(a[i], b[i], Seq::<u8>::empty(), Seq::<u8>::empty());
    }
    assert(a.len() == x.len() && b.len() == y.len());
    assert(a =~= b);
}

/// Two members under the same key that hold arrays of finite numbers can be
/// told apart.
proof fn lemma_number_members_told_apart(
    key: Seq<char>,
    a: Seq<Scalar>,
    b: Seq<Scalar>,
    pad: Seq<u8>,
)
    requires
        all_finite(a),
        all_finite(b),
    ensures
        told_apart(
            member(key, array_text(number_items(a), pad)),
            member(key, array_text(number_items(b), pad)),
        ),
{
    lemma_number_items_told_apart(a, b);
    lemma_arrays_told_apart(number_items(a), number_items(b), pad);
    lemma_members_told_apart(
        key,
        array_text(number_items(a), pad),
        array_text(number_items(b), pad),
    );
}

/// Two members under the same key that hold arrays of finite numbers and have
/// the same text hold the same numbers.
proof fn lemma_number_member_value(key: Seq<char>, a: Seq<Scalar>, b: Seq<Scalar>, pad: Seq<u8>)
    requires
        all_finite(a),
        all_finite(b),
        member(key, array_text(number_items(a), pad)) == member(
            key,
            array_text(number_items(b), pad),
        ),
    ensures
        a == b,
{
    lemma_member_value(key, array_text(number_items(a), pad), array_text(number_items(b), pad));
    lemma_number_array_unique(a, b, pad);
}

/// Two members under the same key that hold string literals and have the same
/// text hold the same string.
proof fn lemma_string_member_value(key: Seq<char>, a: Seq<char>, b: Seq<char>)
    requires
        member(key, quoted(a)) == member(key, quoted(b)),
    ensures
        a == b,
{
    lemma_member_value(key, quoted(a), quoted(b));
    lemma_nothing_after(quoted(a));
    lemma_nothing_after(quoted(b));
    lemma_quoted_unique(a, b, Seq::<u8>::empty(), Seq::<u8>::empty());
}

/// The members of two nodes can be told apart, member by member.
#[verifier::rlimit(50)]
proof fn lemma_node_members_told_apart(a: RecordView, b: RecordView, pad: Seq<u8>)
    requires
        node_finite(a),
        node_finite(b),
    ensures
        items_told_apart(node_members(a, pad), node_members(b, pad)),
    decreases a, 1nat,
{
    let inner = deeper(pad);
    let x = node_members(a, pad);
    let y = node_members(b, pad);
    assert(told_apart(x[0], y[0])) by {
        lemma_strings_told_apart(a.name, b.name);
        lemma_members_told_apart("name"@, quoted(a.name), quoted(b.name));
    }
    assert(told_apart(x[1], y[1])) by {
        lemma_number_members_told_apart(
            "position"@,
            a.transform.position@,
            b.transform.position@,
            inner,
        );
    }
    assert(told_apart(x[2], y[2])) by {
        lemma_number_members_told_apart(
            "rotation"@,
            a.transform.rotation@,
            b.transform.rotation@,
            inner,
        );
    }
    assert(told_apart(x[3], y[3])) by {
        lemma_number_members_told_apart(
            "scale"@,
            a.transform.scale@,
            b.transform.scale@,
            inner,
        );
    }
    assert(told_apart(x[4], y[4])) by {
        lemma_node_items_told_apart(a.children, b.children, inner);
        lemma_arrays_told_apart(
            node_items(a.children, inner),
            node_items(b.children, inner),
            inner,
        );
        lemma_members_told_apart(
            "children"@,
            array_text(node_items(a.children, inner), inner),
            array_text(node_items(b.children, inner), inner),
        );
    }
    assert(x.len() == 5 && y.len() == 5);
    assert forall|i: int| #![trigger x[i]] 0 <= i < x.len() && i < y.len() implies told_apart(
        x[i],
        y[i],
    ) by {
        if i == 0 {
        } else if i == 1 {
        } else if i == 2 {
        } else if i == 3 {
        } else {
            assert(i == 4);
        }
    }
}

/// The texts of the nodes of two lists can be told apart, node by node.
proof fn lemma_node_items_told_apart(a: Seq<RecordView>, b: Seq<RecordView>, pad: Seq<u8>)
    requires
        forest_finite(a),
        forest_finite(b),
    ensures
        items_told_apart(node_items(a, pad), node_items(b, pad)),
    decreases a, 0nat,
{
    let x = node_items(a, pad);
    let y = node_items(b, pad);
    assert forall|i: int| #![trigger x[i]] 0 <= i < x.len() && i < y.len() implies told_apart(
        x[i],
        y[i],
    ) by {
        let p = x[i];
        let q = y[i];
        assert(node_finite(a[i]) && node_finite(b[i]));
        assert forall|u: Seq<u8>, v: Seq<u8>|
            #![trigger p.add(u), q.add(v)]
            after_item(u) && after_item(v) && p.add(u) == q.add(v) implies p == q && u == v by {
            lemma_node_unique(a[i], b[i], deeper(pad), u, v);
        }
    }
}

/// Nodes with the same members are the same node.
#[verifier::rlimit(50)]
proof fn lemma_node_from_members(a: RecordView, b: RecordView, pad: Seq<u8>)
    requires
        node_finite(a),
        node_finite(b),
        node_members(a, pad) == node_members(b, pad),
    ensures
        a == b,
    decreases a, 2nat,
{
    let inner = deeper(pad);
    let x = node_members(a, pad);
    let y = node_members(b, pad);
    assert(a.name == b.name) by {
        assert(x[0] == y[0]);
        lemma_string_member_value("name"@, a.name, b.name);
    }
    assert(a.transform.position =~= b.transform.position) by {
        assert(x[1] == y[1]);
        lemma_number_member_value(
            "position"@,
            a.transform.position@,
            b.transform.position@,
            inner,
        );
    }
    assert(a.transform.rotation =~= b.transform.rotation) by {
        assert(x[2] == y[2]);
        lemma_number_member_value(
            "rotation"@,
            a.transform.rotation@,
            b.transform.rotation@,
            inner,
        );
    }
    assert(a.transform.scale =~= b.transform.scale) by {
        assert(x[3] == y[3]);
        lemma_number_member_value("scale"@, a.transform.scale@, b.transform.scale@, inner);
    }
    assert(a.children == b.children) by {
        assert(x[4] == y[4]);
        lemma_member_value(
            "children"@,
            array_text(node_items(a.children, inner), inner),
            array_text(node_items(b.children, inner), inner),
        );
        lemma_node_array_unique(a.children, b.children, inner);
    }
}

/// The text of a node tells the node, with all that is nested in it, and
/// where the text ends.
#[verifier::rlimit(50)]
pub proof fn lemma_node_unique(a: RecordView, b: RecordView, pad: Seq<u8>, s: Seq<u8>, t: Seq<u8>)
    requires
        node_finite(a),
        node_finite(b),
        node_text(a, pad) + s == node_text(b, pad) + t,
    ensures
        a == b,
        s == t,
    decreases a, 3nat,
{
    let x = node_members(a, pad);
    let y = node_members(b, pad);
    assert(x.len() == 5 && y.len() == 5);
    lemma_node_members_told_apart(a, b, pad);
    lemma_object_unique(x, y, pad, s, t);
    lemma_node_from_members(a, b, pad);
}

/// An array of nodes tells its nodes.
proof fn lemma_node_array_unique(a: Seq<RecordView>, b: Seq<RecordView>, pad: Seq<u8>)
    requires
        forest_finite(a),
        forest_finite(b),
        array_text(node_items(a, pad), pad) == array_text(node_items(b, pad), pad),
    ensures
        a == b,
    decreases a, 1nat,
{
    let x = node_items(a, pad);
    let y = node_items(b, pad);
    lemma_node_items_told_apart(a, b, pad);
    lemma_nothing_after(array_text(x, pad));
    lemma_nothing_after(array_text(y, pad));
    lemma_array_unique(x, y, pad, Seq::<u8>::empty(), Seq::<u8>::empty());
    assert(a.len() == x.len() && b.len() == y.len());
    assert forall|i: int| 0 <= i < a.len() implies a[i] == b[i] by {
        assert(x[i] == y[i]);
        assert(node_finite(a[i]) && node_finite(b[i]));
        lemma_nothing_after(node_text(a[i], deeper(pad)));
        lemma_nothing_after(node_text(b[i], deeper(pad)));
        lemma_node_unique(a[i], b[i], deeper(pad), Seq::<u8>::empty(), Seq::<u8>::empty());
    }
    assert(a =~= b);
}

/// A text is the text of one document only: documents with the same text have
/// the same trees, with the same names and numbers, and the same asset list.
/// So what is written can be read back without loss.
#[verifier::rlimit(50)]
pub proof fn lemma_document_text_unique(a: DocumentView, b: DocumentView)
    requires
        forest_finite(a.nodes),
        forest_finite(b.nodes),
        document_text(a) == document_text(b),
    ensures
        a == b,
{
    let pad = deeper(Seq::<u8>::empty());
    let x = document_members(a);
    let y = document_members(b);
    let nodes_a = array_text(node_items(a.nodes, pad), pad);
    let nodes_b = array_text(node_items(b.nodes, pad), pad);
    let assets_a = array_text(string_items(a.assets), pad);
    let assets_b = array_text(string_items(b.assets), pad);
    lemma_node_items_told_apart(a.nodes, b.nodes, pad);
    lemma_arrays_told_apart(node_items(a.nodes, pad), node_items(b.nodes, pad), pad);
    lemma_members_told_apart("nodes"@, nodes_a, nodes_b);
    assert(items_told_apart(string_items(a.assets), string_items(b.assets))) by {
        let p = string_items(a.assets);
        let q = string_items(b.assets);
        assert forall|i: int| #![trigger p[i]] 0 <= i < p.len() && i < q.len() implies told_apart(
            p[i],
            q[i],
        ) by {
            lemma_strings_told_apart(a.assets[i], b.assets[i]);
        }
    }
    lemma_arrays_told_apart(string_items(a.assets), string_items(b.assets), pad);
    lemma_members_told_apart("assets"@, assets_a, assets_b);
    assert forall|i: int| #![trigger x[i]] 0 <= i < x.len() && i < y.len() implies told_apart(
        x[i],
        y[i],
    ) by {}
    lemma_nothing_after(document_text(a));
    lemma_nothing_after(document_text(b));
    lemma_object_unique(
        x,
        y,
        Seq::<u8>::empty(),
        Seq::<u8>::empty(),
        Seq::<u8>::empty(),
    );
    assert(x[0] == y[0] && x[1] == y[1]);
    lemma_member_value("nodes"@, nodes_a, nodes_b);
    lemma_member_value("assets"@, assets_a, assets_b);
    lemma_node_array_unique(a.nodes, b.nodes, pad);
    lemma_string_array_unique(a.assets, b.assets, pad);
}

} // verus!
