//! What the bytes of a text say.

use vstd::prelude::*;

#[allow(unused_imports)]
use crate::attributes::{attribute_value, fixed_text, joined_texts, texts_of, AttributeValueView};
#[allow(unused_imports)]
use crate::bytes::{utf8_lossy, without_trailing_spaces};
#[allow(unused_imports)]
use crate::classic::{row_text, rows_from};
#[allow(unused_imports)]
use crate::cursor::first_zero;
#[allow(unused_imports)]
use crate::message::datatype::{ClassView, DatatypeView, StringPad};
#[allow(unused_imports)]
use crate::text::decimal;

verus! {

/// `n` spaces.
pub open spec fn spaces(n: nat) -> Seq<u8> {
    Seq::new(n, |i: int| 0x20u8)
}

/// The bytes hold no zero.
pub open spec fn is_text(s: Seq<u8>) -> bool {
    forall|i: int| 0 <= i < s.len() ==> #[trigger] s[i] != 0
}

proof fn lemma_end(s: Seq<u8>, text: Seq<u8>, p: int)
    requires
        0 <= p <= text.len() <= s.len(),
        s.take(text.len() as int) == text,
        is_text(text),
        text.len() == s.len() || s[text.len() as int] == 0,
    ensures
        first_zero(s, p) == text.len(),
    decreases text.len() - p,
{
    if p < text.len() {
        assert(s[p] == s.take(text.len() as int)[p]);
        assert(text[p] != 0);
        lemma_end(s, text, p + 1);
    }
}

proof fn lemma_spaces(text: Seq<u8>, n: nat)
    requires
        text.len() == 0 || text.last() != 0x20,
    ensures
        without_trailing_spaces(text + spaces(n)) == text,
    decreases n,
{
    let s = text + spaces(n);
    if n > 0 {
        assert(s.last() == 0x20);
        assert(s.drop_last() =~= text + spaces((n - 1) as nat));
        lemma_spaces(text, (n - 1) as nat);
    } else {
        assert(s =~= text);
    }
}

/// A string of fixed length ends at its first zero. Where spaces are padding, those
/// before that are not part of it; where they are not, they are.
pub proof fn a_fixed_string_ends_at_its_padding(
    text: Seq<u8>,
    n: nat,
    rest: Seq<u8>,
    pad: StringPad,
)
    requires
        is_text(text),
        text.len() == 0 || text.last() != 0x20,
        rest.len() == 0 || rest[0] == 0,
    ensures
        pad is SpacePad ==> fixed_text(text + spaces(n) + rest, pad) == utf8_lossy(text),
        !(pad is SpacePad) ==> fixed_text(text + spaces(n) + rest, pad) == utf8_lossy(
            text + spaces(n),
        ),
{
    let kept = text + spaces(n);
    let raw = kept + rest;
    assert(is_text(kept));
    assert(raw.take(kept.len() as int) =~= kept);
    lemma_end(raw, kept, 0);
    lemma_spaces(text, n);
}

/// A row of a character variable ends at its first zero, without the spaces before it.
pub proof fn a_row_ends_at_its_padding(text: Seq<u8>, n: nat, rest: Seq<u8>)
    requires
        is_text(text),
        text.len() == 0 || text.last() != 0x20,
        rest.len() == 0 || rest[0] == 0,
    ensures
        row_text(text + spaces(n) + rest) == utf8_lossy(text),
{
    let kept = text + spaces(n);
    let raw = kept + rest;
    assert(is_text(kept));
    assert(raw.take(kept.len() as int) =~= kept);
    lemma_end(raw, kept, 0);
    lemma_spaces(text, n);
}

/// String `i` of fixed length is made of its own bytes: the strings stand one behind the
/// other.
pub proof fn fixed_strings_stand_one_behind_the_other(d: DatatypeView, data: Seq<u8>, i: int)
    requires
        d.class is String,
        d.size > 0,
        data.len() >= d.size,
        0 <= i,
        i * d.size + d.size <= data.len(),
    ensures
        texts_of(d, data) matches Some(all) && all.len() == data.len() / d.size as nat && i
            < all.len() && all[i] == fixed_text(
            data.subrange(i * d.size, i * d.size + d.size),
            d.class->String_pad,
        ),
{
    let w = d.size as int;
    assert((i + 1) * w == i * w + w) by (nonlinear_arith);
    assert(i < data.len() as int / w) by (nonlinear_arith)
        requires
            i * w + w <= data.len(),
            w > 0,
    ;
}

/// A character attribute is one string: that of its one element, where it has one.
pub proof fn a_character_attribute_is_its_text(
    d: DatatypeView,
    text: Seq<u8>,
    n: nat,
    rest: Seq<u8>,
    strings: Option<Seq<Seq<char>>>,
)
    requires
        d.class is String,
        d.size == (text + spaces(n) + rest).len(),
        d.size > 0,
        is_text(text),
        text.len() == 0 || text.last() != 0x20,
        rest.len() == 0 || rest[0] == 0,
    ensures
        d.class->String_pad is SpacePad ==> attribute_value(
            d,
            text + spaces(n) + rest,
            strings,
        ) == AttributeValueView::Str(utf8_lossy(text)),
        !(d.class->String_pad is SpacePad) ==> attribute_value(
            d,
            text + spaces(n) + rest,
            strings,
        ) == AttributeValueView::Str(utf8_lossy(text + spaces(n))),
{
    let data = text + spaces(n) + rest;
    let w = d.size as int;
    a_fixed_string_ends_at_its_padding(text, n, rest, d.class->String_pad);
    assert(0 * w == 0 && 1 * w == w);
    fixed_strings_stand_one_behind_the_other(d, data, 0);
    assert(data.len() as int / w == 1) by (nonlinear_arith)
        requires
            data.len() == w,
            w > 0,
    ;
    let all = texts_of(d, data)->Some_0;
    assert(data.subrange(0, w) =~= data);
    assert(all =~= seq![all[0]]);
    assert(all.drop_last() =~= Seq::<Seq<char>>::empty());
    reveal_with_fuel(joined_texts, 2);
    assert(joined_texts(all) =~= all[0]);
}

/// The strings of a string attribute are those that its pointers led to; where that
/// failed, its bytes are left as they are.
pub proof fn a_string_attribute_is_what_its_pointers_lead_to(
    d: DatatypeView,
    data: Seq<u8>,
    strings: Seq<Seq<char>>,
)
    requires
        d.class is VariableLength,
        d.class->VariableLength_kind is String,
    ensures
        attribute_value(d, data, Some(strings)) == AttributeValueView::Strs(strings),
        attribute_value(d, data, None) == AttributeValueView::Raw(data),
{
}

proof fn lemma_rows(b: Seq<u8>, width: u64, p: int, out: Seq<Seq<char>>, i: int)
    requires
        width > 0,
        0 <= p <= b.len(),
        p == out.len() * width,
        0 <= i,
        i * width + width <= b.len(),
        forall|j: int|
            0 <= j < out.len() ==> #[trigger] out[j] == row_text(
                b.subrange(j * width, j * width + width),
            ),
    ensures
        rows_from(b, width, p, out).len() > i,
        rows_from(b, width, p, out)[i] == row_text(b.subrange(i * width, i * width + width)),
        b.len() as int % width as int == 0 ==> rows_from(b, width, p, out).len() * width
            == b.len(),
    decreases b.len() - p,
{
    let w = width as int;
    if p >= b.len() {
        assert(i < out.len()) by (nonlinear_arith)
            requires
                out.len() * w >= b.len(),
                i * w + w <= b.len(),
                w > 0,
        ;
    } else {
        let end = if b.len() - p < width {
            b.len() as int
        } else {
            p + width
        };
        let row = row_text(b.subrange(p, end));
        let more = out.push(row);
        let n = out.len() as int;
        if b.len() - p < width {
            assert(i < n) by (nonlinear_arith)
                requires
                    n * w + w > b.len(),
                    i * w + w <= b.len(),
                    w > 0,
            ;
            assert(rows_from(b, width, end, more) == more);
            if b.len() as int % w == 0 {
                let q = b.len() as int / w;
                vstd::arithmetic::div_mod::lemma_fundamental_div_mod(b.len() as int, w);
                assert(false) by (nonlinear_arith)
                    requires
                        b.len() == w * q,
                        n * w < b.len(),
                        b.len() < n * w + w,
                        w > 0,
                ;
            }
        } else {
            assert((n + 1) * w == n * w + w) by (nonlinear_arith);
            assert forall|j: int| 0 <= j < more.len() implies #[trigger] more[j] == row_text(
                b.subrange(j * width, j * width + width),
            ) by {
                if j < n {
                    assert(out[j] == row_text(b.subrange(j * width, j * width + width)));
                }
            }
            lemma_rows(b, width, end, more, i);
        }
    }
}

/// Row `i` of a character variable is made of its own bytes: rows stand one behind the
/// other, and there are as many as fit.
pub proof fn rows_stand_one_behind_the_other(b: Seq<u8>, width: u64, i: int)
    requires
        width > 0,
        0 <= i,
        i * width + width <= b.len(),
    ensures
        ({
            let rows = rows_from(b, width, 0, Seq::empty());
            &&& i < rows.len()
            &&& rows[i] == row_text(b.subrange(i * width, i * width + width))
            &&& b.len() as int % width as int == 0 ==> rows.len() * width == b.len()
        }),
{
    assert(0 * width == 0);
    lemma_rows(b, width, 0, Seq::empty(), i);
}

// ── numbers in messages ────────────────────────────────────────────────────

/// The value of a row of digits.
pub open spec fn digits_value(s: Seq<char>) -> int
    decreases s.len(),
{
    if s.len() == 0 {
        0
    } else {
        10 * digits_value(s.drop_last()) + (s.last() as int - 48)
    }
}

/// A number is written in decimal digits that say it, without a zero in front.
pub proof fn a_number_is_written_in_decimal(n: nat)
    ensures
        decimal(n).len() > 0,
        digits_value(decimal(n)) == n,
        forall|i: int| 0 <= i < decimal(n).len() ==> '0' <= #[trigger] decimal(n)[i] <= '9',
        n > 0 ==> decimal(n)[0] != '0',
    decreases n,
{
    reveal_strlit("0");
    reveal_strlit("1");
    reveal_strlit("2");
    reveal_strlit("3");
    reveal_strlit("4");
    reveal_strlit("5");
    reveal_strlit("6");
    reveal_strlit("7");
    reveal_strlit("8");
    reveal_strlit("9");
    let s = decimal(n);
    let last = crate::text::digit((n % 10) as int);
    assert(last.len() == 1);
    assert(last[0] as int - 48 == n % 10);
    assert(s.last() == last[0]);
    if n >= 10 {
        a_number_is_written_in_decimal(n / 10);
        assert(s.drop_last() =~= decimal(n / 10));
    } else {
        assert(s.drop_last() =~= Seq::<char>::empty());
        assert(digits_value(Seq::<char>::empty()) == 0);
    }
    assert(digits_value(s) == 10 * digits_value(s.drop_last()) + (s.last() as int - 48));
}

} // verus!
