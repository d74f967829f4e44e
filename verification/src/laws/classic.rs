//! The netCDF classic formats: what is written is read back.

use vstd::prelude::*;

#[allow(unused_imports)]
use crate::bytes::utf8_lossy;
#[allow(unused_imports)]
use crate::classic::{
    a_read_gives_every_selected_element, attribute_at, attributes_at, attributes_from, be_u32_at,
    dimensions_at, dimensions_from, first_missing, header_at, list_at, name_at, names_of,
    number_at, numbers_from, padded_records, record_variables, selection_of, shape_of, stride_of,
    unpadded_records, value_bytes, variable_at, variable_of, variables_at, variables_from,
    variant_of, ClassicAttributeView, ClassicDimensionView, ClassicVariableView, HeaderView, NcType,
};
use crate::container::Container;
#[allow(unused_imports)]
use crate::cursor::{first_zero, skip_at, take_at, value_of, Parse};
#[allow(unused_imports)]
use crate::error::ErrorView;
#[allow(unused_imports)]
use crate::laws::arrays::{
    a_selection_takes_its_elements_row_by_row, elements_stand_row_by_row, extents_multiply,
    place_in, span, steps,
};
#[allow(unused_imports)]
use crate::laws::writing::{
    be, blank, group_writing, holds, joined, lemma_be_len, lemma_blank_len, lemma_holds_be_u32,
    lemma_holds_both, lemma_holds_taken,
};
#[allow(unused_imports)]
use crate::read::{selected_index, SlabView};
#[allow(unused_imports)]
use crate::shape::product;
#[allow(unused_imports)]
use crate::source::Image;

verus! {

// ── a writer ───────────────────────────────────────────────────────────────

/// The element type of a code.
pub open spec fn type_named(code: int) -> NcType {
    if code == 1 {
        NcType::Byte
    } else if code == 2 {
        NcType::Char
    } else if code == 3 {
        NcType::Short
    } else if code == 4 {
        NcType::Int
    } else if code == 5 {
        NcType::Float
    } else if code == 6 {
        NcType::Double
    } else if code == 7 {
        NcType::UByte
    } else if code == 8 {
        NcType::UShort
    } else if code == 9 {
        NcType::UInt
    } else if code == 10 {
        NcType::Int64
    } else {
        NcType::UInt64
    }
}

/// How many bytes an element of a type takes.
pub open spec fn bytes_each(t: NcType) -> nat {
    match t {
        NcType::Byte | NcType::Char | NcType::UByte => 1,
        NcType::Short | NcType::UShort => 2,
        NcType::Int | NcType::UInt | NcType::Float => 4,
        NcType::Double | NcType::Int64 | NcType::UInt64 => 8,
    }
}

/// How many bytes fill `n` up to a multiple of four.
pub open spec fn filler(n: nat) -> nat {
    ((4 - n % 4) % 4) as nat
}

/// A count, length or offset.
pub open spec fn number(n: nat, wide: bool) -> Seq<u8> {
    be(
        n,
        if wide {
            8
        } else {
            4
        },
    )
}

/// The number is not too large for its field.
pub open spec fn fits(n: nat, wide: bool) -> bool {
    n <= if wide {
        u64::MAX as nat
    } else {
        u32::MAX as nat
    }
}

/// A name: its length, its bytes, and what fills them up.
pub open spec fn name(s: Seq<u8>, wide: bool) -> Seq<u8> {
    number(s.len(), wide) + (s + blank(filler(s.len())))
}

/// A list: its tag, how many entries it has, and the entries.
pub open spec fn list(tag: nat, parts: Seq<Seq<u8>>, wide: bool) -> Seq<u8> {
    be(tag, 4) + (number(parts.len(), wide) + joined(parts))
}

/// A dimension to write. The record dimension has the length zero.
pub struct Dimension {
    pub name: Seq<u8>,
    pub len: nat,
}

/// An attribute to write, with its values as they stand in the file.
pub struct Note {
    pub name: Seq<u8>,
    pub code: nat,
    pub count: nat,
    pub values: Seq<u8>,
}

/// A variable to write.
pub struct Quantity {
    pub name: Seq<u8>,
    pub dimensions: Seq<nat>,
    pub notes: Seq<Note>,
    pub code: nat,
    pub size: nat,
    pub begin: nat,
}

/// A whole header to write.
pub struct Contents {
    pub records: nat,
    pub dimensions: Seq<Dimension>,
    pub notes: Seq<Note>,
    pub quantities: Seq<Quantity>,
}

impl Dimension {
    pub open spec fn written(self, wide: bool) -> Seq<u8> {
        name(self.name, wide) + number(self.len, wide)
    }

    pub open spec fn writable(self, wide: bool) -> bool {
        fits(self.name.len(), wide) && fits(self.len, wide)
    }
}

impl Note {
    pub open spec fn written(self, wide: bool) -> Seq<u8> {
        name(self.name, wide) + (be(self.code, 4) + (number(self.count, wide) + (self.values
            + blank(filler(self.values.len())))))
    }

    pub open spec fn writable(self, wide: bool) -> bool {
        &&& fits(self.name.len(), wide)
        &&& 1 <= self.code <= 11
        &&& fits(self.count, wide)
        &&& self.values.len() == self.count * bytes_each(type_named(self.code as int))
        &&& self.values.len() <= u64::MAX
    }
}

/// Each dimension, written.
pub open spec fn dimension_parts(ds: Seq<Dimension>, wide: bool) -> Seq<Seq<u8>> {
    Seq::new(ds.len(), |i: int| ds[i].written(wide))
}

/// Each attribute, written.
pub open spec fn note_parts(ns: Seq<Note>, wide: bool) -> Seq<Seq<u8>> {
    Seq::new(ns.len(), |i: int| ns[i].written(wide))
}

/// Each number, written.
pub open spec fn number_parts(ns: Seq<nat>, wide: bool) -> Seq<Seq<u8>> {
    Seq::new(ns.len(), |i: int| number(ns[i], wide))
}

/// Each variable, written.
pub open spec fn quantity_parts(qs: Seq<Quantity>, container: Container) -> Seq<Seq<u8>> {
    Seq::new(qs.len(), |i: int| qs[i].written(container))
}

impl Quantity {
    /// Offsets are four bytes wide in the first format and eight in the others.
    pub open spec fn written(self, container: Container) -> Seq<u8> {
        let wide = container is Cdf5;
        name(self.name, wide) + (number(self.dimensions.len(), wide) + (joined(
            number_parts(self.dimensions, wide),
        ) + (list(0x0C, note_parts(self.notes, wide), wide) + (be(self.code, 4) + (number(
            self.size,
            wide,
        ) + number(self.begin, !(container is Cdf1)))))))
    }

    pub open spec fn writable(self, container: Container, dimensions: Seq<Dimension>) -> bool {
        let wide = container is Cdf5;
        &&& fits(self.name.len(), wide)
        &&& fits(self.dimensions.len(), wide)
        &&& forall|i: int|
            0 <= i < self.dimensions.len() ==> #[trigger] self.dimensions[i] < dimensions.len()
        &&& fits(self.notes.len(), wide)
        &&& forall|i: int| 0 <= i < self.notes.len() ==> (#[trigger] self.notes[i]).writable(wide)
        &&& 1 <= self.code <= 11
        &&& fits(self.size, wide)
        &&& fits(self.begin, !(container is Cdf1))
    }
}

impl Contents {
    /// The header, behind its magic number.
    pub open spec fn written(self, container: Container) -> Seq<u8> {
        let wide = container is Cdf5;
        be(self.records, 4) + (list(0x0A, dimension_parts(self.dimensions, wide), wide) + (list(
            0x0C,
            note_parts(self.notes, wide),
            wide,
        ) + list(0x0B, quantity_parts(self.quantities, container), wide)))
    }

    pub open spec fn writable(self, container: Container) -> bool {
        let wide = container is Cdf5;
        &&& self.records <= u32::MAX
        &&& fits(self.dimensions.len(), wide)
        &&& fits(self.notes.len(), wide)
        &&& fits(self.quantities.len(), wide)
        &&& forall|i: int|
            0 <= i < self.dimensions.len() ==> (#[trigger] self.dimensions[i]).writable(wide)
        &&& forall|i: int| 0 <= i < self.notes.len() ==> (#[trigger] self.notes[i]).writable(wide)
        &&& forall|i: int|
            0 <= i < self.quantities.len() ==> (#[trigger] self.quantities[i]).writable(
                container,
                self.dimensions,
            )
    }
}

// ── what a reader has to find ──────────────────────────────────────────────

/// The length of a dimension: the record dimension is as long as there are records.
pub open spec fn length_of(d: Dimension, records: nat) -> nat {
    if d.len == 0 {
        records
    } else {
        d.len
    }
}

/// The dimension that was read is the one that was written.
pub open spec fn same_dimension(v: ClassicDimensionView, d: Dimension, records: nat) -> bool {
    &&& v.name == utf8_lossy(d.name)
    &&& v.len == length_of(d, records)
    &&& v.is_unlimited == (d.len == 0)
}

/// The attribute that was read is the one that was written.
pub open spec fn same_note(v: ClassicAttributeView, n: Note) -> bool {
    &&& v.name == utf8_lossy(n.name)
    &&& v.nc_type == type_named(n.code as int)
    &&& v.raw == n.values
    &&& n.code != 2 ==> v.text is None && v.numbers.len() == n.count
    &&& n.code == 2 ==> v.text is Some && v.numbers.len() == 0
    &&& n.code == 2 && (forall|i: int| 0 <= i < n.values.len() ==> n.values[i] != 0) ==> v.text
        == Some(utf8_lossy(n.values))
}

/// The attributes that were read are those that were written, in order.
pub open spec fn same_notes(vs: Seq<ClassicAttributeView>, ns: Seq<Note>) -> bool {
    vs.len() == ns.len() && forall|i: int| 0 <= i < ns.len() ==> same_note(#[trigger] vs[i], ns[i])
}

/// The variable that was read is the one that was written.
pub open spec fn same_quantity(v: ClassicVariableView, q: Quantity, c: Contents) -> bool {
    &&& v.name == utf8_lossy(q.name)
    &&& v.nc_type == type_named(q.code as int)
    &&& v.begin == q.begin
    &&& same_notes(v.attributes, q.notes)
    &&& v.shape.len() == q.dimensions.len()
    &&& v.dimensions.len() == q.dimensions.len()
    &&& forall|i: int|
        0 <= i < q.dimensions.len() ==> {
            let d = c.dimensions[#[trigger] q.dimensions[i] as int];
            v.shape[i] == length_of(d, c.records) && v.dimensions[i] == utf8_lossy(d.name)
        }
    &&& v.is_record == (q.dimensions.len() > 0 && c.dimensions[q.dimensions[0] as int].len == 0)
}

/// What was read is what was written.
pub open spec fn same_contents(h: HeaderView, c: Contents) -> bool {
    &&& h.record_count == c.records
    &&& h.dimensions.len() == c.dimensions.len()
    &&& forall|i: int|
        0 <= i < c.dimensions.len() ==> same_dimension(
            #[trigger] h.dimensions[i],
            c.dimensions[i],
            c.records,
        )
    &&& same_notes(h.attributes, c.notes)
    &&& h.variables.len() == c.quantities.len()
    &&& forall|i: int|
        0 <= i < c.quantities.len() ==> same_quantity(
            #[trigger] h.variables[i],
            c.quantities[i],
            c,
        )
}

// ── records ────────────────────────────────────────────────────────────────

/// How many bytes one record of a variable holds: everything behind the record axis.
pub open spec fn record_len(v: ClassicVariableView) -> int {
    span(v.shape, 1) * bytes_each(v.nc_type)
}

/// `n` rounded up to a multiple of four.
pub open spec fn rounded_up(n: int) -> int {
    n + (4 - n % 4) % 4
}

/// What the records of the first `n` variables take together, each rounded up.
pub open spec fn record_sum(vs: Seq<ClassicVariableView>, n: int) -> int
    decreases n,
{
    if n <= 0 {
        0
    } else {
        record_sum(vs, n - 1) + if vs[n - 1].is_record {
            rounded_up(record_len(vs[n - 1]))
        } else {
            0
        }
    }
}

/// What holds of every variable of a header.
pub open spec fn laid_out(v: ClassicVariableView) -> bool {
    &&& v.is_record ==> v.shape.len() > 0 && v.record_size == rounded_up(record_len(v))
    &&& !v.is_record ==> v.record_size == 0
}

proof fn lemma_span_skip(shape: Seq<u64>, a: int)
    requires
        0 <= a,
        shape.len() > 0,
    ensures
        span(shape.skip(1), a) == span(shape, a + 1),
    decreases shape.len() - a,
{
    if a < shape.len() - 1 {
        lemma_span_skip(shape, a + 1);
    }
}

proof fn lemma_steps_skip(index: Seq<int>, shape: Seq<u64>, a: int)
    requires
        0 <= a,
        shape.len() > 0,
        index.len() == shape.len(),
    ensures
        steps(index.skip(1), shape.skip(1), a) == steps(index, shape, a + 1),
    decreases shape.len() - a,
{
    if a < shape.len() - 1 {
        lemma_span_skip(shape, a + 1);
        lemma_steps_skip(index, shape, a + 1);
    }
}

proof fn lemma_record_len(v: ClassicVariableView)
    requires
        v.shape.len() > 0,
    ensures
        crate::classic::record_bytes(v.shape, v.nc_type) == record_len(v),
{
    extents_multiply(v.shape.skip(1));
    lemma_span_skip(v.shape, 0);
}

proof fn lemma_laid_out(
    b: Seq<u8>,
    p: int,
    container: Container,
    dims: Seq<ClassicDimensionView>,
    left: nat,
    out: Seq<ClassicVariableView>,
)
    requires
        forall|i: int| 0 <= i < out.len() ==> laid_out(#[trigger] out[i]),
    ensures
        variables_from(b, p, container, dims, left, out) matches Ok((vs, _)) ==> forall|i: int|
            0 <= i < vs.len() ==> laid_out(#[trigger] vs[i]),
    decreases left,
{
    if left > 0 {
        match variable_at(b, p, container, dims) {
            Ok((v, q)) => {
                if v.is_record {
                    lemma_record_len(v);
                }
                lemma_laid_out(b, q, container, dims, (left - 1) as nat, out.push(v));
            },
            Err(_) => {},
        }
    }
}

proof fn lemma_header_laid_out(b: Seq<u8>, p: int, container: Container)
    requires
        header_at(b, p, container) is Ok,
    ensures
        ({
            let vs = header_at(b, p, container)->Ok_0.0.variables;
            forall|i: int| 0 <= i < vs.len() ==> laid_out(#[trigger] vs[i])
        }),
{
    let wide = container is Cdf5;
    let (records, p1) = be_u32_at(b, p + 4)->Ok_0;
    let (dims, p2) = dimensions_at(b, p1, wide, records as u64)->Ok_0;
    let (_, p3) = attributes_at(b, p2, wide)->Ok_0;
    let (count, p4) = list_at(
        b,
        p3,
        wide,
        crate::classic::NC_VARIABLE,
        "expected a variable list, found tag "@,
    )->Ok_0;
    lemma_laid_out(b, p4, container, dims, count as nat, Seq::empty());
}

proof fn lemma_sums(vs: Seq<ClassicVariableView>, n: int)
    requires
        0 <= n <= vs.len(),
        forall|i: int| 0 <= i < vs.len() ==> laid_out(#[trigger] vs[i]),
    ensures
        padded_records(vs.take(n)) == record_sum(vs, n),
    decreases n,
{
    if n > 0 {
        lemma_sums(vs, n - 1);
        assert(vs.take(n).drop_last() =~= vs.take(n - 1));
        assert(laid_out(vs[n - 1]));
    }
}

proof fn lemma_lone(vs: Seq<ClassicVariableView>, k: int, n: int)
    requires
        0 <= n <= vs.len(),
        0 <= k < vs.len(),
        vs[k].is_record,
        forall|i: int| 0 <= i < vs.len() && i != k ==> !(#[trigger] vs[i]).is_record,
        forall|i: int| 0 <= i < vs.len() ==> laid_out(#[trigger] vs[i]),
    ensures
        record_variables(vs.take(n)) == if k < n {
            1nat
        } else {
            0nat
        },
        unpadded_records(vs.take(n)) == if k < n {
            record_len(vs[k])
        } else {
            0
        },
    decreases n,
{
    if n > 0 {
        lemma_lone(vs, k, n - 1);
        assert(vs.take(n).drop_last() =~= vs.take(n - 1));
        assert(vs.take(n).last() == vs[n - 1]);
        if k == n - 1 {
            assert(laid_out(vs[k]));
            lemma_record_len(vs[k]);
        }
    }
}

proof fn lemma_several(vs: Seq<ClassicVariableView>, i: int, j: int, n: int)
    requires
        0 <= n <= vs.len(),
        0 <= i < j < vs.len(),
        vs[i].is_record,
        vs[j].is_record,
    ensures
        i < n ==> record_variables(vs.take(n)) >= 1,
        j < n ==> record_variables(vs.take(n)) >= 2,
    decreases n,
{
    if n > 0 {
        lemma_several(vs, i, j, n - 1);
        assert(vs.take(n).drop_last() =~= vs.take(n - 1));
        assert(vs.take(n).last() == vs[n - 1]);
    }
}

/// The records of a lone record variable stand one behind the other, with nothing
/// between them: the distance from one to the next is the product of the extents
/// behind the record axis times the width of an element, not rounded up.
pub proof fn records_of_a_lone_variable_are_packed(
    b: Seq<u8>,
    p: int,
    container: Container,
    k: int,
    index: Seq<int>,
)
    requires
        header_at(b, p, container) is Ok,
        ({
            let vs = header_at(b, p, container)->Ok_0.0.variables;
            &&& 0 <= k < vs.len()
            &&& vs[k].is_record
            &&& index.len() == vs[k].shape.len()
            &&& forall|i: int| 0 <= i < vs.len() && i != k ==> !(#[trigger] vs[i]).is_record
        }),
    ensures
        ({
            let h = header_at(b, p, container)->Ok_0.0;
            let v = h.variables[k];
            let w = bytes_each(v.nc_type);
            &&& v.shape.len() > 0
            &&& h.record_stride == span(v.shape, 1) * w
            &&& v.position(h.record_stride, index) == v.begin + index[0] * (span(v.shape, 1) * w)
                + steps(index, v.shape, 1) * w
        }),
{
    let h = header_at(b, p, container)->Ok_0.0;
    let vs = h.variables;
    let v = vs[k];
    lemma_header_laid_out(b, p, container);
    assert(laid_out(v));
    lemma_lone(vs, k, vs.len() as int);
    assert(vs.take(vs.len() as int) =~= vs);
    elements_stand_row_by_row(index.skip(1), v.shape.skip(1));
    lemma_steps_skip(index, v.shape, 0);
}

/// With two or more record variables the record of each is rounded up to a multiple of
/// four bytes, and the distance from one record to the next is the sum of all of them.
pub proof fn records_of_several_variables_are_padded(
    b: Seq<u8>,
    p: int,
    container: Container,
    i: int,
    j: int,
    index: Seq<int>,
)
    requires
        header_at(b, p, container) is Ok,
        ({
            let vs = header_at(b, p, container)->Ok_0.0.variables;
            &&& 0 <= i < vs.len()
            &&& 0 <= j < vs.len()
            &&& i != j
            &&& vs[i].is_record
            &&& vs[j].is_record
            &&& index.len() == vs[i].shape.len()
        }),
    ensures
        ({
            let h = header_at(b, p, container)->Ok_0.0;
            let v = h.variables[i];
            let w = bytes_each(v.nc_type);
            &&& v.shape.len() > 0
            &&& v.record_size == rounded_up(span(v.shape, 1) * w)
            &&& h.record_stride == record_sum(h.variables, h.variables.len() as int)
            &&& v.position(h.record_stride, index) == v.begin + index[0] * record_sum(
                h.variables,
                h.variables.len() as int,
            ) + steps(index, v.shape, 1) * w
        }),
{
    let h = header_at(b, p, container)->Ok_0.0;
    let vs = h.variables;
    let v = vs[i];
    lemma_header_laid_out(b, p, container);
    assert(laid_out(v));
    lemma_sums(vs, vs.len() as int);
    if i < j {
        lemma_several(vs, i, j, vs.len() as int);
    } else {
        lemma_several(vs, j, i, vs.len() as int);
    }
    assert(vs.take(vs.len() as int) =~= vs);
    elements_stand_row_by_row(index.skip(1), v.shape.skip(1));
    lemma_steps_skip(index, v.shape, 0);
}

// ── reading ────────────────────────────────────────────────────────────────

/// Where the element at `index` begins in the file: one record after the other for a
/// record variable, one run from its beginning for any other.
pub open spec fn offset_in_file(v: ClassicVariableView, stride: u64, index: Seq<int>) -> int {
    if v.is_record && v.shape.len() > 0 {
        v.begin + index[0] * stride + steps(index, v.shape, 1) * bytes_each(v.nc_type)
    } else {
        v.begin + steps(index, v.shape, 0) * bytes_each(v.nc_type)
    }
}

/// What a read hands out for the element at `index` are the bytes that stand where the
/// element begins in the file, the last of them first.
pub proof fn a_read_hands_out_the_stored_bytes(
    image: Image,
    v: ClassicVariableView,
    stride: u64,
    slab: SlabView,
    index: Seq<int>,
    j: int,
)
    requires
        selection_of(image, v, stride, slab) is Ok,
        slab.start.len() == slab.count.len() == index.len() == v.shape.len(),
        forall|a: int|
            0 <= a < index.len() ==> slab.start[a] <= #[trigger] index[a] < slab.start[a]
                + slab.count[a],
        0 <= j < bytes_each(v.nc_type),
    ensures
        ({
            let out = selection_of(image, v, stride, slab)->Ok_0;
            let w = bytes_each(v.nc_type);
            let at = offset_in_file(v, stride, index);
            &&& out.len() == span(slab.count, 0) * w
            &&& 0 <= place_in(slab, index) * w + j < out.len()
            &&& 0 <= at
            &&& at + w <= image.bytes.len()
            &&& out[place_in(slab, index) * w + j] == image.bytes[at + (w - 1 - j)]
        }),
{
    a_selection_takes_its_elements_row_by_row(slab, index);
    extents_multiply(slab.count);
    let k = place_in(slab, index);
    a_read_gives_every_selected_element(image, v, stride, slab, k, j);
    let w = bytes_each(v.nc_type);
    assert(k * w >= 0) by (nonlinear_arith)
        requires
            k >= 0,
            w >= 0,
    ;
    if v.is_record && v.shape.len() > 0 {
        elements_stand_row_by_row(index.skip(1), v.shape.skip(1));
        lemma_steps_skip(index, v.shape, 0);
    } else {
        elements_stand_row_by_row(index, v.shape);
    }
}

// ── what was written is read back ──────────────────────────────────────────

/// How wide a number is.
pub open spec fn number_len(wide: bool) -> int {
    if wide {
        8
    } else {
        4
    }
}

proof fn lemma_number(b: Seq<u8>, p: int, n: nat, wide: bool)
    requires
        fits(n, wide),
        holds(b, p, number(n, wide)),
    ensures
        number_at(b, p, wide) == Parse::<u64>::Ok((n as u64, p + number_len(wide))),
        number(n, wide).len() == number_len(wide),
{
    broadcast use group_writing;

}

proof fn lemma_name(b: Seq<u8>, p: int, s: Seq<u8>, wide: bool)
    requires
        fits(s.len(), wide),
        holds(b, p, name(s, wide)),
    ensures
        name_at(b, p, wide) == Parse::<Seq<char>>::Ok((utf8_lossy(s), p + name(s, wide).len())),
{
    broadcast use group_writing;

    lemma_number(b, p, s.len(), wide);
    let n = s.len() as int;
    assert(crate::classic::padded(n) - n == filler(s.len()));
    let q = p + number_len(wide);
    assert(holds(b, q, s + blank(filler(s.len()))));
    assert(holds(b, q, s));
    assert(holds(b, q + n, blank(filler(s.len()))));
}

proof fn lemma_parts_skip(ds: Seq<Dimension>, wide: bool)
    requires
        ds.len() > 0,
    ensures
        joined(dimension_parts(ds, wide)) == ds[0].written(wide) + joined(
            dimension_parts(ds.skip(1), wide),
        ),
{
    assert(dimension_parts(ds, wide).skip(1) =~= dimension_parts(ds.skip(1), wide));
}

proof fn lemma_dimensions(
    b: Seq<u8>,
    p: int,
    wide: bool,
    records: u64,
    ds: Seq<Dimension>,
    out: Seq<ClassicDimensionView>,
)
    requires
        holds(b, p, joined(dimension_parts(ds, wide))),
        forall|i: int| 0 <= i < ds.len() ==> (#[trigger] ds[i]).writable(wide),
    ensures
        dimensions_from(b, p, wide, records, ds.len(), out) matches Ok((r, q)) && {
            &&& q == p + joined(dimension_parts(ds, wide)).len()
            &&& r.len() == out.len() + ds.len()
            &&& forall|i: int| 0 <= i < out.len() ==> #[trigger] r[i] == out[i]
            &&& forall|i: int|
                0 <= i < ds.len() ==> same_dimension(
                    r[out.len() + i],
                    #[trigger] ds[i],
                    records as nat,
                )
        },
    decreases ds.len(),
{
    if ds.len() > 0 {
        let d = ds[0];
        lemma_parts_skip(ds, wide);
        let tail = joined(dimension_parts(ds.skip(1), wide));
        assert(d.writable(wide));
        let p1 = p + name(d.name, wide).len();
        lemma_holds_both(b, p, d.written(wide), tail);
        lemma_holds_both(b, p, name(d.name, wide), number(d.len, wide));
        lemma_name(b, p, d.name, wide);
        lemma_number(b, p1, d.len, wide);
        let p2 = p1 + number_len(wide);
        let next = ClassicDimensionView {
            name: utf8_lossy(d.name),
            len: if d.len as u64 == 0 {
                records
            } else {
                d.len as u64
            },
            is_unlimited: d.len as u64 == 0,
        };
        let more = out.push(next);
        assert(holds(b, p2, tail));
        assert forall|i: int| 0 <= i < ds.skip(1).len() implies (#[trigger] ds.skip(
            1,
        )[i]).writable(wide) by {
            assert(ds[i + 1].writable(wide));
        }
        lemma_dimensions(b, p2, wide, records, ds.skip(1), more);
        let (r, q) = dimensions_from(b, p, wide, records, ds.len(), out)->Ok_0;
        assert(r[out.len() as int] == more[out.len() as int]);
        assert forall|i: int| 0 <= i < out.len() implies #[trigger] r[i] == out[i] by {
            assert(more[i] == out[i]);
        }
        assert forall|i: int| 0 <= i < ds.len() implies same_dimension(
            r[out.len() + i],
            #[trigger] ds[i],
            records as nat,
        ) by {
            if i > 0 {
                let rest = ds.skip(1);
                assert(rest[i - 1] == ds[i]);
                assert(same_dimension(r[more.len() + (i - 1)], rest[i - 1], records as nat));
            }
        }
    }
}

proof fn lemma_type(code: nat)
    requires
        1 <= code <= 11,
    ensures
        crate::classic::nc_type_of(code as u32) == std::result::Result::<NcType, ErrorView>::Ok(
            type_named(code as int),
        ),
        crate::classic::width_of(type_named(code as int)) == bytes_each(type_named(code as int)),
{
}

proof fn lemma_no_zero(s: Seq<u8>, p: int)
    requires
        0 <= p <= s.len(),
        forall|i: int| 0 <= i < s.len() ==> s[i] != 0,
    ensures
        first_zero(s, p) == s.len(),
    decreases s.len() - p,
{
    if p < s.len() {
        lemma_no_zero(s, p + 1);
    }
}

#[verifier::spinoff_prover]
#[verifier::rlimit(40)]
proof fn lemma_note_fields(b: Seq<u8>, p: int, n: Note, wide: bool)
    requires
        n.writable(wide),
        holds(b, p, n.written(wide)),
    ensures
        ({
            let p1 = p + name(n.name, wide).len();
            let p2 = p1 + 4 + number_len(wide);
            let p3 = p2 + n.values.len();
            let p4 = p3 + filler(n.values.len());
            &&& name_at(b, p, wide) == Parse::<Seq<char>>::Ok((utf8_lossy(n.name), p1))
            &&& be_u32_at(b, p1) == Parse::<u32>::Ok((n.code as u32, p1 + 4))
            &&& number_at(b, p1 + 4, wide) == Parse::<u64>::Ok((n.count as u64, p2))
            &&& take_at(b, p2, n.values.len() as int) == Parse::<Seq<u8>>::Ok((n.values, p3))
            &&& skip_at(b, p3, filler(n.values.len()) as int) == Parse::<()>::Ok(((), p4))
            &&& p4 == p + n.written(wide).len()
        }),
{
    let v = n.values;
    let fill = blank(filler(v.len()));
    let p1 = p + name(n.name, wide).len();
    lemma_holds_both(
        b,
        p,
        name(n.name, wide),
        be(n.code, 4) + (number(n.count, wide) + (v + fill)),
    );
    lemma_name(b, p, n.name, wide);
    lemma_be_len(n.code, 4);
    lemma_holds_both(b, p1, be(n.code, 4), number(n.count, wide) + (v + fill));
    lemma_holds_be_u32(b, p1, n.code);
    lemma_holds_both(b, p1 + 4, number(n.count, wide), v + fill);
    lemma_number(b, p1 + 4, n.count, wide);
    let p2 = p1 + 4 + number_len(wide);
    lemma_holds_both(b, p2, v, fill);
    lemma_holds_taken(b, p2, v);
    lemma_holds_taken(b, p2 + v.len(), fill);
    lemma_blank_len(filler(v.len()));
}

/// The attribute that a reader makes of what it found.
spec fn view_of(n: Note) -> ClassicAttributeView {
    let t = type_named(n.code as int);
    ClassicAttributeView {
        name: utf8_lossy(n.name),
        nc_type: t,
        text: if t is Char {
            Some(utf8_lossy(n.values.take(first_zero(n.values, 0))))
        } else {
            None
        },
        numbers: if t is Char {
            Seq::empty()
        } else {
            crate::classic::widened(
                crate::bytes::reversed_elements(n.values, bytes_each(t)),
                t,
            )
        },
        raw: n.values,
    }
}

proof fn lemma_view(n: Note, wide: bool)
    requires
        n.writable(wide),
    ensures
        same_note(view_of(n), n),
{
    let v = n.values;
    let t = type_named(n.code as int);
    let w = bytes_each(t);
    lemma_type(n.code);
    if n.code != 2 {
        assert(v.len() / w == n.count) by (nonlinear_arith)
            requires
                v.len() == n.count * w,
                w > 0,
        ;
        assert(crate::bytes::reversed_elements(v, w).len() == v.len());
    } else if forall|i: int| 0 <= i < v.len() ==> v[i] != 0 {
        lemma_no_zero(v, 0);
        assert(v.take(v.len() as int) =~= v);
    }
}

#[verifier::spinoff_prover]
#[verifier::rlimit(40)]
proof fn lemma_note(b: Seq<u8>, p: int, n: Note, wide: bool)
    requires
        n.writable(wide),
        holds(b, p, n.written(wide)),
    ensures
        attribute_at(b, p, wide) matches Ok((v, q)) && q == p + n.written(wide).len() && same_note(
            v,
            n,
        ),
{
    let v = n.values;
    let t = type_named(n.code as int);
    let w = bytes_each(t);
    lemma_type(n.code);
    lemma_note_fields(b, p, n, wide);
    assert(value_bytes(n.count as u64, w) == v.len());
    assert(crate::classic::padded(v.len() as int) - v.len() == filler(v.len()));
    lemma_view(n, wide);
    assert(attribute_at(b, p, wide) == Parse::<ClassicAttributeView>::Ok(
        (view_of(n), p + n.written(wide).len()),
    ));
}

#[verifier::spinoff_prover]
#[verifier::rlimit(40)]
proof fn lemma_notes(
    b: Seq<u8>,
    p: int,
    wide: bool,
    ns: Seq<Note>,
    out: Seq<ClassicAttributeView>,
)
    requires
        holds(b, p, joined(note_parts(ns, wide))),
        forall|i: int| 0 <= i < ns.len() ==> (#[trigger] ns[i]).writable(wide),
    ensures
        attributes_from(b, p, wide, ns.len(), out) matches Ok((r, q)) && {
            &&& q == p + joined(note_parts(ns, wide)).len()
            &&& r.len() == out.len() + ns.len()
            &&& forall|i: int| 0 <= i < out.len() ==> #[trigger] r[i] == out[i]
            &&& forall|i: int|
                0 <= i < ns.len() ==> same_note(r[out.len() + i], #[trigger] ns[i])
        },
    decreases ns.len(),
{
    if ns.len() > 0 {
        let n = ns[0];
        assert(note_parts(ns, wide).skip(1) =~= note_parts(ns.skip(1), wide));
        let tail = joined(note_parts(ns.skip(1), wide));
        assert(joined(note_parts(ns, wide)) == n.written(wide) + tail);
        assert(n.writable(wide));
        lemma_holds_both(b, p, n.written(wide), tail);
        lemma_note(b, p, n, wide);
        let (v, p1) = attribute_at(b, p, wide)->Ok_0;
        let more = out.push(v);
        assert(holds(b, p1, tail));
        assert forall|i: int| 0 <= i < ns.skip(1).len() implies (#[trigger] ns.skip(
            1,
        )[i]).writable(wide) by {
            assert(ns[i + 1].writable(wide));
        }
        lemma_notes(b, p1, wide, ns.skip(1), more);
        let (r, q) = attributes_from(b, p, wide, ns.len(), out)->Ok_0;
        assert(r[out.len() as int] == more[out.len() as int]);
        assert forall|i: int| 0 <= i < out.len() implies #[trigger] r[i] == out[i] by {
            assert(more[i] == out[i]);
        }
        assert forall|i: int| 0 <= i < ns.len() implies same_note(
            r[out.len() + i],
            #[trigger] ns[i],
        ) by {
            if i > 0 {
                let rest = ns.skip(1);
                assert(rest[i - 1] == ns[i]);
                assert(same_note(r[more.len() + (i - 1)], rest[i - 1]));
            }
        }
    }
}

proof fn lemma_list(b: Seq<u8>, p: int, wide: bool, tag: nat, parts: Seq<Seq<u8>>, what: Seq<char>)
    requires
        0 < tag <= u32::MAX,
        fits(parts.len(), wide),
        holds(b, p, list(tag, parts, wide)),
    ensures
        list_at(b, p, wide, tag as u32, what) == Parse::<u64>::Ok(
            (parts.len() as u64, p + 4 + number_len(wide)),
        ),
        holds(b, p + 4 + number_len(wide), joined(parts)),
        list(tag, parts, wide).len() == 4 + number_len(wide) + joined(parts).len(),
{
    broadcast use group_writing;

    assert(holds(b, p, be(tag, 4)));
    assert(holds(b, p + 4, number(parts.len(), wide) + joined(parts)));
    lemma_number(b, p + 4, parts.len(), wide);
}

proof fn lemma_note_list(b: Seq<u8>, p: int, wide: bool, ns: Seq<Note>)
    requires
        fits(ns.len(), wide),
        forall|i: int| 0 <= i < ns.len() ==> (#[trigger] ns[i]).writable(wide),
        holds(b, p, list(0x0C, note_parts(ns, wide), wide)),
    ensures
        attributes_at(b, p, wide) matches Ok((r, q)) && same_notes(r, ns) && q == p + list(
            0x0C,
            note_parts(ns, wide),
            wide,
        ).len(),
{
    lemma_list(
        b,
        p,
        wide,
        0x0C,
        note_parts(ns, wide),
        "expected an attribute list, found tag "@,
    );
    lemma_notes(b, p + 4 + number_len(wide), wide, ns, Seq::empty());
    let (r, q) = attributes_at(b, p, wide)->Ok_0;
    assert forall|i: int| 0 <= i < ns.len() implies same_note(#[trigger] r[i], ns[i]) by {
        assert(same_note(r[0 + i], ns[i]));
    }
}

proof fn lemma_numbers(b: Seq<u8>, p: int, wide: bool, ns: Seq<nat>, out: Seq<u64>)
    requires
        holds(b, p, joined(number_parts(ns, wide))),
        forall|i: int| 0 <= i < ns.len() ==> fits(#[trigger] ns[i], wide),
    ensures
        numbers_from(b, p, wide, ns.len(), out) == Parse::<Seq<u64>>::Ok(
            (
                out + Seq::new(ns.len(), |i: int| ns[i] as u64),
                p + joined(number_parts(ns, wide)).len(),
            ),
        ),
    decreases ns.len(),
{
    if ns.len() > 0 {
        assert(number_parts(ns, wide).skip(1) =~= number_parts(ns.skip(1), wide));
        let tail = joined(number_parts(ns.skip(1), wide));
        assert(joined(number_parts(ns, wide)) == number(ns[0], wide) + tail);
        assert(fits(ns[0], wide));
        lemma_holds_both(b, p, number(ns[0], wide), tail);
        lemma_number(b, p, ns[0], wide);
        assert(holds(b, p + number_len(wide), tail));
        let more = out.push(ns[0] as u64);
        assert forall|i: int| 0 <= i < ns.skip(1).len() implies fits(
            #[trigger] ns.skip(1)[i],
            wide,
        ) by {
            assert(fits(ns[i + 1], wide));
        }
        lemma_numbers(b, p + number_len(wide), wide, ns.skip(1), more);
        assert(more + Seq::new(ns.skip(1).len(), |i: int| ns.skip(1)[i] as u64) =~= out + Seq::new(
            ns.len(),
            |i: int| ns[i] as u64,
        ));
    } else {
        assert(out + Seq::new(ns.len(), |i: int| ns[i] as u64) =~= out);
    }
}

proof fn lemma_none_missing(ids: Seq<u64>, n: nat, i: int)
    requires
        0 <= i <= ids.len(),
        forall|j: int| 0 <= j < ids.len() ==> #[trigger] ids[j] < n,
    ensures
        first_missing(ids, n, i) == ids.len(),
    decreases ids.len() - i,
{
    if i < ids.len() {
        lemma_none_missing(ids, n, i + 1);
    }
}

/// The extents of a variable.
pub open spec fn extents(q: Quantity, c: Contents) -> Seq<u64> {
    Seq::new(
        q.dimensions.len(),
        |i: int| length_of(c.dimensions[q.dimensions[i] as int], c.records) as u64,
    )
}

/// One record of the variable, if it has records, is small enough to be counted.
pub open spec fn is_modest(q: Quantity, c: Contents) -> bool {
    q.dimensions.len() > 0 && c.dimensions[q.dimensions[0] as int].len == 0 ==> span(
        extents(q, c),
        1,
    ) * bytes_each(type_named(q.code as int)) <= 0xFFFF_FFF0
}

#[verifier::spinoff_prover]
#[verifier::rlimit(40)]
proof fn lemma_quantity(
    b: Seq<u8>,
    p: int,
    container: Container,
    dims: Seq<ClassicDimensionView>,
    q: Quantity,
    c: Contents,
)
    requires
        q.writable(container, c.dimensions),
        is_modest(q, c),
        c.records <= u32::MAX,
        fits(c.dimensions.len(), container is Cdf5),
        dims.len() == c.dimensions.len(),
        forall|i: int|
            0 <= i < dims.len() ==> same_dimension(#[trigger] dims[i], c.dimensions[i], c.records),
        holds(b, p, q.written(container)),
    ensures
        variable_at(b, p, container, dims) matches Ok((v, e)) && e == p + q.written(container).len()
            && same_quantity(v, q, c) && v.record_size <= u32::MAX,
{
    broadcast use group_writing;

    let wide = container is Cdf5;
    let far = !(container is Cdf1);
    let t6 = number(q.size, wide) + number(q.begin, far);
    let t5 = be(q.code, 4) + t6;
    let notes = list(0x0C, note_parts(q.notes, wide), wide);
    let t4 = notes + t5;
    let numbers = joined(number_parts(q.dimensions, wide));
    let t3 = numbers + t4;
    let t2 = number(q.dimensions.len(), wide) + t3;
    assert(q.written(container) == name(q.name, wide) + t2);
    lemma_name(b, p, q.name, wide);
    let p1 = p + name(q.name, wide).len();
    assert(holds(b, p1, t2));
    lemma_number(b, p1, q.dimensions.len(), wide);
    let p2 = p1 + number_len(wide);
    assert(holds(b, p2, t3));
    assert forall|i: int| 0 <= i < q.dimensions.len() implies fits(
        #[trigger] q.dimensions[i],
        wide,
    ) by {
        assert(q.dimensions[i] < c.dimensions.len());
    }
    lemma_numbers(b, p2, wide, q.dimensions, Seq::empty());
    let p3 = p2 + numbers.len();
    assert(holds(b, p3, t4));
    assert(holds(b, p3, notes));
    lemma_note_list(b, p3, wide, q.notes);
    let p4 = p3 + notes.len();
    assert(holds(b, p4, t5));
    assert(holds(b, p4, be(q.code, 4)));
    lemma_type(q.code);
    assert(holds(b, p4 + 4, t6));
    lemma_number(b, p4 + 4, q.size, wide);
    let p5 = p4 + 4 + number_len(wide);
    assert(holds(b, p5, number(q.begin, far)));
    lemma_number(b, p5, q.begin, far);
    let ids = Seq::<u64>::empty() + Seq::new(q.dimensions.len(), |i: int| q.dimensions[i] as u64);
    assert forall|j: int| 0 <= j < ids.len() implies #[trigger] ids[j] < dims.len() by {
        assert(q.dimensions[j] < c.dimensions.len());
        assert(fits(q.dimensions[j], wide));
        assert(ids[j] == q.dimensions[j]);
    }
    lemma_none_missing(ids, dims.len(), 0);
    let shape = shape_of(dims, ids);
    assert forall|i: int| 0 <= i < ids.len() implies {
        let d = c.dimensions[q.dimensions[i] as int];
        &&& #[trigger] ids[i] == q.dimensions[i]
        &&& shape[i] == length_of(d, c.records)
        &&& names_of(dims, ids)[i] == utf8_lossy(d.name)
    } by {
        assert(ids[i] < dims.len());
        assert(q.dimensions[i] < c.dimensions.len());
        assert(fits(q.dimensions[i], wide));
        assert(same_dimension(
            dims[q.dimensions[i] as int],
            c.dimensions[q.dimensions[i] as int],
            c.records,
        ));
    }
    assert(shape =~= extents(q, c)) by {
        assert forall|i: int| 0 <= i < shape.len() implies shape[i] == extents(q, c)[i] by {
            assert(ids[i] == q.dimensions[i]);
        }
    }
    if q.dimensions.len() > 0 {
        assert(ids[0] == q.dimensions[0]);
        assert(q.dimensions[0] < c.dimensions.len());
        assert(same_dimension(
            dims[q.dimensions[0] as int],
            c.dimensions[q.dimensions[0] as int],
            c.records,
        ));
        extents_multiply(shape.skip(1));
        lemma_span_skip(shape, 0);
    }
}

/// One variable is read, and the others behind it.
#[verifier::spinoff_prover]
proof fn lemma_quantity_step(
    b: Seq<u8>,
    p: int,
    container: Container,
    dims: Seq<ClassicDimensionView>,
    n: nat,
    out: Seq<ClassicVariableView>,
    v: ClassicVariableView,
    q: int,
)
    requires
        n > 0,
        variable_at(b, p, container, dims) == Parse::<ClassicVariableView>::Ok((v, q)),
    ensures
        variables_from(b, p, container, dims, n, out) == variables_from(
            b,
            q,
            container,
            dims,
            (n - 1) as nat,
            out.push(v),
        ),
{
}

#[verifier::spinoff_prover]
#[verifier::rlimit(40)]
proof fn lemma_quantities(
    b: Seq<u8>,
    p: int,
    container: Container,
    dims: Seq<ClassicDimensionView>,
    qs: Seq<Quantity>,
    c: Contents,
    out: Seq<ClassicVariableView>,
)
    requires
        forall|i: int|
            0 <= i < qs.len() ==> (#[trigger] qs[i]).writable(container, c.dimensions)
                && is_modest(qs[i], c),
        c.records <= u32::MAX,
        fits(c.dimensions.len(), container is Cdf5),
        dims.len() == c.dimensions.len(),
        forall|i: int|
            0 <= i < dims.len() ==> same_dimension(#[trigger] dims[i], c.dimensions[i], c.records),
        holds(b, p, joined(quantity_parts(qs, container))),
        forall|i: int| 0 <= i < out.len() ==> (#[trigger] out[i]).record_size <= u32::MAX,
    ensures
        variables_from(b, p, container, dims, qs.len(), out) matches Ok((r, e)) && {
            &&& e == p + joined(quantity_parts(qs, container)).len()
            &&& r.len() == out.len() + qs.len()
            &&& forall|i: int| 0 <= i < out.len() ==> #[trigger] r[i] == out[i]
            &&& forall|i: int|
                0 <= i < qs.len() ==> same_quantity(r[out.len() + i], #[trigger] qs[i], c)
            &&& forall|i: int| 0 <= i < r.len() ==> (#[trigger] r[i]).record_size <= u32::MAX
        },
    decreases qs.len(),
{
    if qs.len() > 0 {
        let q = qs[0];
        assert(quantity_parts(qs, container).skip(1) =~= quantity_parts(qs.skip(1), container));
        let tail = joined(quantity_parts(qs.skip(1), container));
        assert(joined(quantity_parts(qs, container)) == q.written(container) + tail);
        assert(q.writable(container, c.dimensions));
        lemma_holds_both(b, p, q.written(container), tail);
        lemma_quantity(b, p, container, dims, q, c);
        let (v, p1) = variable_at(b, p, container, dims)->Ok_0;
        let more = out.push(v);
        lemma_quantity_step(b, p, container, dims, qs.len(), out, v, p1);
        assert(holds(b, p1, tail));
        assert forall|i: int| 0 <= i < qs.skip(1).len() implies (#[trigger] qs.skip(
            1,
        )[i]).writable(container, c.dimensions) && is_modest(qs.skip(1)[i], c) by {
            assert(qs[i + 1].writable(container, c.dimensions));
        }
        lemma_quantities(b, p1, container, dims, qs.skip(1), c, more);
        let (r, e) = variables_from(b, p, container, dims, qs.len(), out)->Ok_0;
        assert(r[out.len() as int] == more[out.len() as int]);
        assert forall|i: int| 0 <= i < out.len() implies #[trigger] r[i] == out[i] by {
            assert(more[i] == out[i]);
        }
        assert forall|i: int| 0 <= i < qs.len() implies same_quantity(
            r[out.len() + i],
            #[trigger] qs[i],
            c,
        ) by {
            if i > 0 {
                let rest = qs.skip(1);
                assert(rest[i - 1] == qs[i]);
                assert(same_quantity(r[more.len() + (i - 1)], rest[i - 1], c));
            }
        }
    }
}

proof fn lemma_stride_is_countable(vs: Seq<ClassicVariableView>, n: int)
    requires
        0 <= n <= vs.len(),
        forall|i: int| 0 <= i < vs.len() ==> (#[trigger] vs[i]).record_size <= u32::MAX,
        forall|i: int| 0 <= i < vs.len() ==> laid_out(#[trigger] vs[i]),
    ensures
        padded_records(vs.take(n)) <= n * 0xFFFF_FFFF,
        unpadded_records(vs.take(n)) <= padded_records(vs.take(n)),
    decreases n,
{
    if n > 0 {
        lemma_stride_is_countable(vs, n - 1);
        assert(vs.take(n).drop_last() =~= vs.take(n - 1));
        let v = vs[n - 1];
        assert(v.record_size <= u32::MAX);
        assert(laid_out(v));
        if v.is_record {
            lemma_record_len(v);
        }
    }
}

proof fn lemma_dimension_list(b: Seq<u8>, p: int, wide: bool, records: u64, ds: Seq<Dimension>)
    requires
        fits(ds.len(), wide),
        forall|i: int| 0 <= i < ds.len() ==> (#[trigger] ds[i]).writable(wide),
        holds(b, p, list(0x0A, dimension_parts(ds, wide), wide)),
    ensures
        dimensions_at(b, p, wide, records) matches Ok((r, q)) && q == p + list(
            0x0A,
            dimension_parts(ds, wide),
            wide,
        ).len() && r.len() == ds.len() && (forall|i: int|
            0 <= i < r.len() ==> same_dimension(#[trigger] r[i], ds[i], records as nat)),
{
    let parts = dimension_parts(ds, wide);
    lemma_list(b, p, wide, 0x0A, parts, "expected a dimension list, found tag "@);
    lemma_dimensions(b, p + 4 + number_len(wide), wide, records, ds, Seq::empty());
    let (r, q) = dimensions_at(b, p, wide, records)->Ok_0;
    assert forall|i: int| 0 <= i < r.len() implies same_dimension(
        #[trigger] r[i],
        ds[i],
        records as nat,
    ) by {
        assert(same_dimension(r[0 + i], ds[i], records as nat));
    }
}

#[verifier::spinoff_prover]
#[verifier::rlimit(40)]
proof fn lemma_quantity_list(
    b: Seq<u8>,
    p: int,
    container: Container,
    dims: Seq<ClassicDimensionView>,
    c: Contents,
)
    requires
        c.writable(container),
        c.quantities.len() <= u32::MAX,
        forall|i: int| 0 <= i < c.quantities.len() ==> is_modest(#[trigger] c.quantities[i], c),
        dims.len() == c.dimensions.len(),
        forall|i: int|
            0 <= i < dims.len() ==> same_dimension(#[trigger] dims[i], c.dimensions[i], c.records),
        holds(b, p, list(0x0B, quantity_parts(c.quantities, container), container is Cdf5)),
    ensures
        variables_at(b, p, container, dims) matches Ok((vs, q)) && q == p + list(
            0x0B,
            quantity_parts(c.quantities, container),
            container is Cdf5,
        ).len() && vs.len() == c.quantities.len() && (forall|i: int|
            0 <= i < vs.len() ==> same_quantity(#[trigger] vs[i], c.quantities[i], c)) && stride_of(
            vs,
        ) is Ok,
{
    let wide = container is Cdf5;
    let qs = c.quantities;
    let at = p + 4 + number_len(wide);
    lemma_list(
        b,
        p,
        wide,
        0x0B,
        quantity_parts(qs, container),
        "expected a variable list, found tag "@,
    );
    assert forall|i: int| 0 <= i < qs.len() implies (#[trigger] qs[i]).writable(
        container,
        c.dimensions,
    ) && is_modest(qs[i], c) by {
        assert(c.quantities[i].writable(container, c.dimensions));
    }
    lemma_quantities(b, at, container, dims, qs, c, Seq::empty());
    let (vs, q) = variables_at(b, p, container, dims)->Ok_0;
    lemma_laid_out(b, at, container, dims, qs.len(), Seq::empty());
    lemma_stride_is_countable(vs, vs.len() as int);
    assert(vs.take(vs.len() as int) =~= vs);
    assert(vs.len() * 0xFFFF_FFFF <= u64::MAX) by (nonlinear_arith)
        requires
            vs.len() <= 0xFFFF_FFFF,
    ;
    assert forall|i: int| 0 <= i < vs.len() implies same_quantity(#[trigger] vs[i], qs[i], c) by {
        assert(same_quantity(vs[0 + i], qs[i], c));
    }
}

#[verifier::spinoff_prover]
#[verifier::rlimit(40)]
proof fn lemma_header(
    b: Seq<u8>,
    container: Container,
    records: u32,
    dims: (Seq<ClassicDimensionView>, int),
    notes: (Seq<ClassicAttributeView>, int),
    vars: (Seq<ClassicVariableView>, int),
)
    requires
        b.len() >= 4,
        be_u32_at(b, 4) == Parse::<u32>::Ok((records, 8)),
        dimensions_at(b, 8, container is Cdf5, records as u64) == Parse::<
            Seq<ClassicDimensionView>,
        >::Ok(dims),
        attributes_at(b, dims.1, container is Cdf5) == Parse::<Seq<ClassicAttributeView>>::Ok(
            notes,
        ),
        variables_at(b, notes.1, container, dims.0) == Parse::<Seq<ClassicVariableView>>::Ok(vars),
        stride_of(vars.0) is Ok,
    ensures
        header_at(b, 0, container) matches Ok((h, q)) && q == vars.1 && h.dimensions == dims.0
            && h.attributes == notes.0 && h.variables == vars.0 && h.record_count == records,
{
}

/// A header comes back as it was written: every dimension, attribute and variable, in
/// order, each with its name, and the record dimension as long as there are records.
#[verifier::spinoff_prover]
#[verifier::rlimit(40)]
pub proof fn a_header_reads_as_it_was_written(b: Seq<u8>, container: Container, c: Contents)
    requires
        container is Cdf1 || container is Cdf2 || container is Cdf5,
        c.writable(container),
        c.quantities.len() <= u32::MAX,
        forall|i: int| 0 <= i < c.quantities.len() ==> is_modest(#[trigger] c.quantities[i], c),
        holds(b, 4, c.written(container)),
    ensures
        header_at(b, 0, container) matches Ok((h, q)) && same_contents(h, c) && q == 4 + c.written(
            container,
        ).len(),
{
    let wide = container is Cdf5;
    let ds = list(0x0A, dimension_parts(c.dimensions, wide), wide);
    let ns = list(0x0C, note_parts(c.notes, wide), wide);
    let qs = list(0x0B, quantity_parts(c.quantities, container), wide);
    lemma_be_len(c.records, 4);
    lemma_holds_both(b, 4, be(c.records, 4), ds + (ns + qs));
    lemma_holds_be_u32(b, 4, c.records);
    lemma_holds_both(b, 8, ds, ns + qs);
    lemma_dimension_list(b, 8, wide, c.records as u64, c.dimensions);
    let dims = dimensions_at(b, 8, wide, c.records as u64)->Ok_0;
    lemma_holds_both(b, dims.1, ns, qs);
    lemma_note_list(b, dims.1, wide, c.notes);
    let notes = attributes_at(b, dims.1, wide)->Ok_0;
    lemma_quantity_list(b, notes.1, container, dims.0, c);
    let vars = variables_at(b, notes.1, container, dims.0)->Ok_0;
    lemma_header(b, container, c.records as u32, dims, notes, vars);
    let h = header_at(b, 0, container)->Ok_0.0;
    assert(h.record_count == c.records);
    assert forall|i: int| 0 <= i < c.dimensions.len() implies same_dimension(
        #[trigger] h.dimensions[i],
        c.dimensions[i],
        c.records,
    ) by {
        assert(same_dimension(dims.0[i], c.dimensions[i], c.records));
    }
    assert forall|i: int| 0 <= i < c.quantities.len() implies same_quantity(
        #[trigger] h.variables[i],
        c.quantities[i],
        c,
    ) by {
        assert(same_quantity(vars.0[i], c.quantities[i], c));
    }
}

} // verus!
