//! The variable handle: a variable bound to its file, so it can be read.

use vstd::prelude::*;
use vstd::slice::slice_to_vec;

use crate::array::{shape_into_array, ValueArray};
#[allow(unused_imports)]
use crate::array::{array_items, array_shape, shaping};
use crate::attributes::decode_all_text;
#[allow(unused_imports)]
use crate::attributes::texts_of;
use crate::classic::ClassicVariable;
#[allow(unused_imports)]
use crate::classic::{selection_of, selection_reads, width_of, ClassicVariableView};
use crate::context::Ctx;
#[allow(unused_imports)]
use crate::context::CtxView;
use crate::dataset::{read_hyperslab, resolve_vlen_strings};
#[allow(unused_imports)]
use crate::dataset::{heap_strings, hyperslab_of, hyperslab_reads, strings_read};
use crate::dtype::DType;
#[allow(unused_imports)]
use crate::dtype::{dtype_name, dtype_of};
use crate::element::{convert, Element, Scalar};
#[allow(unused_imports)]
use crate::element::converted;
use crate::error::{Error, Result};
#[allow(unused_imports)]
use crate::error::{seen, ErrorView};
use crate::extent::Extents;
#[allow(unused_imports)]
use crate::extent::{selected_block, Extent};
#[allow(unused_imports)]
use crate::filters::supported;
use crate::index::DatasetIndex;
#[allow(unused_imports)]
use crate::index::{dataset_at, datasets_of, refers_to};
use crate::message::datatype::{Datatype, DatatypeClass, VlenKind};
#[allow(unused_imports)]
use crate::message::datatype::{class_view, decodable, ClassView, DatatypeView};
use crate::message::layout::Layout;
use crate::names::find_named;
#[allow(unused_imports)]
use crate::names::lookup;
use crate::netcdf::{copy_texts, Backend, NcAttribute, NcVariable, NetcdfFile};
#[allow(unused_imports)]
use crate::netcdf::{variable_at, variables_of};
use crate::numbers::{to_numbers, Kind};
#[allow(unused_imports)]
use crate::numbers::numbers_of;
use crate::read::{Hyperslab, RawData};
#[allow(unused_imports)]
use crate::read::{RawDataView, SlabView};
use crate::shape::checked_product;
#[allow(unused_imports)]
use crate::shape::product;
use crate::source::ByteSource;
#[allow(unused_imports)]
use crate::source::{agrees, Image};
use crate::text::{add_number, add_text, joined};
#[allow(unused_imports)]
use crate::text::decimal;
#[allow(unused_imports)]
use crate::views::views;

verus! {

/// Where a variable's values live.
pub enum VarStore<'a> {
    /// In a dataset of an HDF5 file.
    Hdf5(&'a DatasetIndex),
    /// In a classic file.
    Classic(&'a ClassicVariable),
}

impl<'a> Clone for VarStore<'a> {
    fn clone(&self) -> (r: Self)
        ensures
            r == *self,
    {
        *self
    }
}

impl<'a> Copy for VarStore<'a> {

}

impl<'a> VarStore<'a> {
    /// The element type, whichever container holds it.
    pub fn datatype(&self) -> (r: &'a Datatype)
        ensures
            *r == match *self {
                VarStore::Hdf5(d) => d.datatype,
                VarStore::Classic(v) => v.datatype,
            },
    {
        match self {
            VarStore::Hdf5(d) => &d.datatype,
            VarStore::Classic(v) => &v.datatype,
        }
    }

    /// The dataset, when an HDF5 file holds the values.
    pub fn hdf5(&self) -> (r: Option<&'a DatasetIndex>)
        ensures
            r == match *self {
                VarStore::Hdf5(d) => Some(d),
                VarStore::Classic(_) => None,
            },
    {
        match self {
            VarStore::Hdf5(d) => Some(*d),
            VarStore::Classic(_) => None,
        }
    }
}

/// A variable bound to its file, so it can be read directly.
pub struct Variable<'a, S: ByteSource + ?Sized> {
    /// The file.
    pub file: &'a NetcdfFile<S>,
    /// The variable's metadata.
    pub info: &'a NcVariable,
    /// Where the values live.
    pub store: VarStore<'a>,
}

impl<S: ByteSource + ?Sized> Clone for Variable<'_, S> {
    fn clone(&self) -> (r: Self)
        ensures
            r == *self,
    {
        *self
    }
}

impl<S: ByteSource + ?Sized> Copy for Variable<'_, S> {

}

/// Where the values of a variable live. A variable of an HDF5 file goes by its
/// path, one of a classic file by its name.
pub open spec fn store_of<'a, S: ByteSource + ?Sized>(file: NetcdfFile<S>, info: NcVariable) -> Option<
    VarStore<'a>,
> {
    match file.backend {
        Backend::Hdf5(h) => match dataset_at(datasets_of(h.root), info.path@, 0) {
            Some(d) => Some(VarStore::Hdf5(d)),
            None => None,
        },
        Backend::Classic(c) => match lookup(c.variables@, info.name@) {
            Some(v) => Some(VarStore::Classic(v)),
            None => None,
        },
    }
}

/// The first `n` of the variables that can be bound to their file.
pub open spec fn bound_among<'a, S: ByteSource + ?Sized>(
    file: NetcdfFile<S>,
    infos: Seq<NcVariable>,
    n: int,
) -> Seq<(NcVariable, VarStore<'a>)>
    decreases n,
{
    if n <= 0 {
        Seq::empty()
    } else {
        let before = bound_among(file, infos, n - 1);
        match store_of(file, infos[n - 1]) {
            Some(store) => before.push((infos[n - 1], store)),
            None => before,
        }
    }
}

impl<S: ByteSource + ?Sized> NetcdfFile<S> {
    /// Where the values of a variable live.
    pub fn store_for(&self, info: &NcVariable) -> (r: Option<VarStore<'_>>)
        ensures
            r == store_of(*self, *info),
    {
        match &self.backend {
            Backend::Hdf5(h) => match h.dataset(info.path.as_str()) {
                Some(d) => Some(VarStore::Hdf5(d)),
                None => None,
            },
            Backend::Classic(c) => match find_named(&c.variables, info.name.as_str()) {
                Some(v) => Some(VarStore::Classic(v)),
                None => None,
            },
        }
    }

    /// A variable by absolute path, bound to the file so it can be read.
    pub fn variable(&self, path: &str) -> (r: Option<Variable<'_, S>>)
        ensures
            match variable_at(self.root, path@) {
                None => r is None,
                Some(info) => match store_of(*self, *info) {
                    None => r is None,
                    Some(store) => r matches Some(v) && v.file == self && v.info == info && v.store
                        == store,
                },
            },
    {
        let info = self.variable_info(path)?;
        let store = self.store_for(info)?;
        Some(Variable { file: self, info, store })
    }

    /// Every variable in the file, bound for reading.
    pub fn variables(&self) -> (r: Vec<Variable<'_, S>>)
        ensures
            ({
                let infos = variables_of(self.root);
                let want = bound_among(*self, infos, infos.len() as int);
                &&& r@.len() == want.len()
                &&& forall|i: int|
                    0 <= i < r@.len() ==> {
                        &&& (#[trigger] r@[i]).file == self
                        &&& *r@[i].info == want[i].0
                        &&& r@[i].store == want[i].1
                    }
            }),
    {
        let infos = self.root.variables_recursive();
        let ghost all = variables_of(self.root);
        let mut out: Vec<Variable<'_, S>> = Vec::new();
        let mut n: usize = 0;
        while n < infos.len()
            invariant
                n <= infos@.len(),
                refers_to(infos@, all),
                out@.len() == bound_among(*self, all, n as int).len(),
                forall|i: int|
                    0 <= i < out@.len() ==> {
                        &&& (#[trigger] out@[i]).file == self
                        &&& *out@[i].info == bound_among(*self, all, n as int)[i].0
                        &&& out@[i].store == bound_among(*self, all, n as int)[i].1
                    },
            decreases infos@.len() - n,
        {
            let info = infos[n];
            if let Some(store) = self.store_for(info) {
                out.push(Variable { file: self, info, store });
            }
            n = n + 1;
        }
        out
    }
}

/// What a classic variable holds in a selection.
///
/// The selection is checked against the shape that the netCDF layer reports.
pub open spec fn classic_block(
    image: Image,
    v: ClassicVariableView,
    stride: u64,
    shape: Seq<u64>,
    slab: SlabView,
) -> std::result::Result<RawDataView, ErrorView> {
    match slab.checked(shape) {
        Err(e) => Err(e),
        Ok(_) => match selection_of(image, v, stride, slab) {
            Err(e) => Err(e),
            Ok(bytes) => Ok(
                RawDataView { bytes, element_size: width_of(v.nc_type), shape: slab.count },
            ),
        },
    }
}

impl<'a, S: ByteSource + ?Sized> Variable<'a, S> {
    /// The variable's metadata.
    pub fn info(&self) -> (r: &'a NcVariable)
        ensures
            r == self.info,
    {
        self.info
    }

    /// The HDF5 dataset backing this variable. `None` for a classic file.
    pub fn dataset(&self) -> (r: Option<&'a DatasetIndex>)
        ensures
            r == match self.store {
                VarStore::Hdf5(d) => Some(d),
                VarStore::Classic(_) => None,
            },
    {
        self.store.hdf5()
    }

    /// The full element type, whichever container holds it.
    pub fn datatype(&self) -> (r: &'a Datatype)
        ensures
            *r == match self.store {
                VarStore::Hdf5(d) => d.datatype,
                VarStore::Classic(v) => v.datatype,
            },
    {
        self.store.datatype()
    }

    /// The variable's netCDF type.
    pub fn vartype(&self) -> (r: DType)
        ensures
            r == dtype_of(
                match self.store {
                    VarStore::Hdf5(d) => d.datatype@,
                    VarStore::Classic(v) => v.datatype@,
                },
            ),
    {
        DType::of(self.store.datatype())
    }

    /// The variable's attributes.
    pub fn attributes(&self) -> (r: &'a [NcAttribute])
        ensures
            r@ == self.info.attributes@,
    {
        self.info.attributes.as_slice()
    }

    /// One attribute by name.
    pub fn attribute(&self, name: &str) -> (r: Option<&'a NcAttribute>)
        ensures
            r == lookup(self.info.attributes@, name@),
    {
        find_named(&self.info.attributes, name)
    }

    /// Total number of elements.
    pub fn len(&self) -> (r: u64)
        requires
            product(self.info.shape@) <= u64::MAX,
        ensures
            r == product(self.info.shape@),
    {
        match checked_product(self.info.shape.as_slice()) {
            Some(n) => n,
            None => 0,
        }
    }

    /// Whether the variable holds no elements.
    pub fn is_empty(&self) -> (r: bool)
        ensures
            r == (product(self.info.shape@) == 0),
    {
        match checked_product(self.info.shape.as_slice()) {
            Some(n) => n == 0,
            None => false,
        }
    }

    /// Whether this reader can decode the variable's values.
    ///
    /// Check this before reading if netcdf-c is kept as a fallback. A classic
    /// file has no filters and no exotic types, so every variable in one is
    /// readable.
    pub fn is_readable(&self) -> (r: bool)
        ensures
            r == match self.store {
                VarStore::Hdf5(d) => decodable(d.datatype@) && forall|i: int|
                    0 <= i < d.pipeline@.len() ==> supported(#[trigger] d.pipeline@[i].id),
                VarStore::Classic(_) => true,
            },
    {
        match self.store.hdf5() {
            Some(d) => d.is_readable(),
            None => true,
        }
    }

    /// The shape of one storage chunk, when the variable is chunked.
    ///
    /// `None` means the variable is stored contiguously and has no chunk grid.
    pub fn chunking(&self) -> (r: Result<Option<Vec<usize>>>)
        ensures
            match self.store {
                VarStore::Hdf5(d) => match d.layout {
                    Layout::Chunked { chunk_dims, .. } => r matches Ok(Some(dims)) && dims@
                        == Seq::new(chunk_dims@.len(), |i: int| chunk_dims@[i] as usize),
                    _ => r matches Ok(None),
                },
                VarStore::Classic(_) => r matches Ok(None),
            },
    {
        let dataset = match self.store.hdf5() {
            Some(d) => d,
            None => {
                // A classic file has no chunking.
                return Ok(None);
            },
        };
        match &dataset.layout {
            Layout::Chunked { chunk_dims, .. } => {
                let mut out: Vec<usize> = Vec::new();
                while out.len() < chunk_dims.len()
                    invariant
                        out@.len() <= chunk_dims@.len(),
                        forall|i: int| 0 <= i < out@.len() ==> out@[i] == chunk_dims@[i] as usize,
                    decreases chunk_dims@.len() - out@.len(),
                {
                    out.push(chunk_dims[out.len()] as usize);
                }
                assert(out@ =~= Seq::new(chunk_dims@.len(), |i: int| chunk_dims@[i] as usize));
                Ok(Some(out))
            },
            _ => Ok(None),
        }
    }

    /// The variable's fill value, as `T`.
    ///
    /// `None` means the variable declares none.
    pub fn fill_value<T: Element>(&self) -> (r: Result<Option<T>>)
        ensures
            r == Ok::<_, Error>(fill_value_in::<T>(lookup(self.info.attributes@, "_FillValue"@))),
    {
        Ok(fill_value_of(self.attribute("_FillValue")))
    }
}

/// A `_FillValue` attribute as `T`.
pub open spec fn fill_value_in<T: Element>(attribute: Option<&NcAttribute>) -> Option<T> {
    match attribute {
        Some(a) => match a.value@.first_number() {
            Some(n) => Some(converted(n)),
            None => None,
        },
        None => None,
    }
}

/// A `_FillValue` attribute as `T`.
pub fn fill_value_of<T: Element>(attribute: Option<&NcAttribute>) -> (r: Option<T>)
    ensures
        r == fill_value_in::<T>(attribute),
{
    let n: Scalar = attribute?.value.first_number()?;
    Some(convert(n))
}

/// Whether the values of a dataset are pointers into the global heap that a
/// read has to follow.
///
/// A ragged sequence has no netCDF-style reader, so only strings count.
pub fn holds_heap_pointers(dataset: &DatasetIndex) -> (r: bool)
    ensures
        r == match dataset.datatype@.class {
            ClassView::VariableLength { kind, .. } => kind is String,
            _ => false,
        },
{
    match &dataset.datatype.class {
        DatatypeClass::VariableLength { kind, .. } => *kind == VlenKind::String,
        _ => false,
    }
}

/// Take the one value a selection named, or say how many it named instead.
pub fn one_value<T>(what: &str, values: Vec<T>) -> (r: Result<T>)
    ensures
        match r {
            Ok(v) => values@.len() == 1 && v == values@[0],
            Err(e) => values@.len() != 1 && e@ == ErrorView::BadRequest(
                "the selection on variable "@ + what@ + " names "@ + decimal(values@.len())
                    + " elements, but one was asked for"@,
            ),
        },
{
    let n: usize = values.len();
    if n == 1 {
        let mut values = values;
        Ok(values.pop().unwrap())
    } else {
        let m = add_text(joined("the selection on variable ", what), " names ");
        let m = add_number(m, n as u64);
        Err(Error::BadRequest(add_text(m, " elements, but one was asked for")))
    }
}

// ── values ─────────────────────────────────────────────────────────────────

/// Values read from a variable, least significant byte first and in row-major
/// order.
pub struct Values<'a> {
    /// The block that was read.
    pub raw: RawData,
    /// The element type.
    pub datatype: &'a Datatype,
    /// Already-resolved variable-length strings, when the variable holds them.
    ///
    /// These are resolved at read time because the characters live in the
    /// global heap, which needs the file.
    pub vlen_strings: Option<Vec<String>>,
}

/// The strings of a block of fixed-length text, if its type is text.
pub open spec fn texts_in(d: DatatypeView, bytes: Seq<u8>) -> std::result::Result<
    Seq<Seq<char>>,
    ErrorView,
> {
    match texts_of(d, bytes) {
        Some(t) => Ok(t),
        None => Err(
            ErrorView::TypeMismatch {
                stored: dtype_name(dtype_of(d)),
                asked: "string"@,
                what: ""@,
            },
        ),
    }
}

impl<'a> Values<'a> {
    /// Build values that hold no heap reference.
    ///
    /// A classic file has no variable-length type, so nothing needs to be
    /// followed into a heap.
    pub fn from_parts(raw: RawData, datatype: &'a Datatype) -> (r: Self)
        ensures
            r.raw == raw,
            r.datatype == datatype,
            r.vlen_strings is None,
    {
        Values { raw, datatype, vlen_strings: None }
    }

    /// Shape of the block that was read.
    pub fn shape(&self) -> (r: &[u64])
        ensures
            r@ == self.raw.shape@,
    {
        self.raw.shape.as_slice()
    }

    /// The raw block, giving up the datatype.
    pub fn into_raw(self) -> (r: RawData)
        ensures
            r == self.raw,
    {
        self.raw
    }

    /// Values as `T`.
    ///
    /// A `T` equal to the stored type copies the values. Any other numeric
    /// type converts. See [`Element`] for what a conversion can lose.
    pub fn get<T: Element>(&self) -> (r: Result<Vec<T>>)
        ensures
            match (r, numbers_as::<T>(self.datatype@, self.raw@)) {
                (Ok(v), Ok(want)) => v@ == want,
                (Err(e), Err(want)) => e@ == want,
                _ => false,
            },
    {
        match kind_of(&self.datatype.class, self.raw.element_size) {
            Some(kind) => Ok(
                to_numbers(kind, self.raw.element_size, self.raw.bytes.as_slice()),
            ),
            None => Err(
                Error::TypeMismatch {
                    stored: DType::of(self.datatype).name(),
                    asked: T::name(),
                    what: String::from_str(""),
                },
            ),
        }
    }

    /// The values as an array of `T`, shaped as they were read.
    ///
    /// Row-major, so the array's axes match the variable's dimensions in order.
    /// Each number stands there by its bits.
    pub fn to_array<T: Element>(&self) -> (r: Result<ValueArray>)
        ensures
            match (r, array_as::<T>(self.datatype@, self.raw@)) {
                (Ok(a), Ok(want)) => (array_shape(a), array_items(a)) == want,
                (Err(e), Err(want)) => e@ == want,
                _ => false,
            },
    {
        let numbers = self.get::<T>()?;
        let ghost want = bits_of(numbers@);
        let mut bits: Vec<u64> = Vec::new();
        while bits.len() < numbers.len()
            invariant
                want == bits_of(numbers@),
                bits@.len() <= numbers@.len(),
                bits@ == want.take(bits@.len() as int),
            decreases numbers@.len() - bits@.len(),
        {
            bits.push(numbers[bits.len()].to_bits());
            assert(bits@ =~= want.take(bits@.len() as int));
        }
        assert(bits@ =~= want);
        shape_into_array(self.raw.shape.as_slice(), bits)
    }

    /// Values as strings.
    ///
    /// Works for both fixed-length character variables and variable-length
    /// string variables; the latter were resolved from the global heap when the
    /// read happened.
    pub fn to_strings(&self) -> (r: Result<Vec<String>>)
        ensures
            match self.vlen_strings {
                Some(s) => r matches Ok(v) && views(v@) == views(s@),
                None => match (r, texts_in(self.datatype@, self.raw.bytes@)) {
                    (Ok(v), Ok(t)) => views(v@) == t,
                    (Err(e), Err(want)) => e@ == want,
                    _ => false,
                },
            },
    {
        if let Some(strings) = &self.vlen_strings {
            return Ok(copy_texts(strings));
        }
        match decode_all_text(self.datatype, self.raw.bytes.as_slice()) {
            Some(t) => Ok(t),
            None => Err(
                Error::TypeMismatch {
                    stored: DType::of(self.datatype).name(),
                    asked: "string",
                    what: String::from_str(""),
                },
            ),
        }
    }
}

/// The strings that the values of a dataset point at, when they do.
pub open spec fn pointed_strings(ctx: CtxView, d: DatasetIndex, raw: RawDataView) -> std::result::Result<
    Option<Seq<Seq<char>>>,
    ErrorView,
> {
    match d.datatype@.class {
        ClassView::VariableLength { kind: VlenKind::String, .. } => match heap_strings(ctx, d, raw) {
            Err(e) => Err(e),
            Ok(s) => Ok(Some(s)),
        },
        _ => Ok(None),
    }
}

/// Turn raw bytes into values, following any heap pointer they hold.
///
/// A variable-length string stores a pointer into the global heap. The value
/// is only complete after the reader follows that pointer. A ragged sequence
/// has no netCDF-style reader, so it is not followed here.
pub fn values_from_raw<'a, S: ByteSource + ?Sized>(
    ctx: Ctx<'_, S>,
    dataset: &'a DatasetIndex,
    raw: RawData,
) -> (r: Result<Values<'a>>)
    ensures
        agrees(
            match r {
                Ok(v) => match v.vlen_strings {
                    Some(s) => Ok(Some(views(s@))),
                    None => Ok(None),
                },
                Err(e) => Err(e@),
            },
            pointed_strings(ctx@, *dataset, raw@),
            ctx.dependable() || !strings_read(ctx@, *dataset, raw@),
        ),
        r matches Ok(v) ==> v.raw == raw && *v.datatype == dataset.datatype,
{
    if !holds_heap_pointers(dataset) {
        return Ok(Values::from_parts(raw, &dataset.datatype));
    }
    let strings = resolve_vlen_strings(ctx, dataset, &raw)?;
    Ok(Values { raw, datatype: &dataset.datatype, vlen_strings: Some(strings) })
}

// ── reads ──────────────────────────────────────────────────────────────────

/// Whether every read of a file that is in range succeeds.
pub open spec fn file_dependable<S: ByteSource + ?Sized>(file: NetcdfFile<S>) -> bool {
    match file.backend {
        Backend::Hdf5(h) => h.source.dependable(),
        Backend::Classic(c) => c.source.dependable(),
    }
}

/// The element type of a variable.
pub open spec fn store_datatype<'a>(store: VarStore<'a>) -> Datatype {
    match store {
        VarStore::Hdf5(d) => d.datatype,
        VarStore::Classic(v) => v.datatype,
    }
}

/// What a variable holds in a selection: the block itself and, where its values
/// are pointers into the global heap, the strings that they point at.
pub open spec fn values_of<'a, S: ByteSource + ?Sized>(v: Variable<'a, S>, slab: SlabView) -> std::result::Result<
    (RawDataView, Option<Seq<Seq<char>>>),
    ErrorView,
> {
    match (v.store, v.file.backend) {
        (VarStore::Hdf5(d), Backend::Hdf5(h)) => match hyperslab_of(h.context(), *d, slab) {
            Err(e) => Err(e),
            Ok(raw) => match pointed_strings(h.context(), *d, raw) {
                Err(e) => Err(e),
                Ok(strings) => Ok((raw, strings)),
            },
        },
        (VarStore::Classic(c), Backend::Classic(file)) => match classic_block(
            file.source.image(),
            c@,
            file.record_stride,
            v.info.shape@,
            slab,
        ) {
            Err(e) => Err(e),
            Ok(raw) => Ok((raw, None)),
        },
        (VarStore::Hdf5(_), Backend::Classic(_)) => Err(
            ErrorView::Malformed("an HDF5 variable without an HDF5 file"@),
        ),
        (VarStore::Classic(_), Backend::Hdf5(_)) => Err(
            ErrorView::Malformed("a classic variable without a classic file"@),
        ),
    }
}

/// Whether reading a selection of a variable reads anything of the file.
pub open spec fn values_read<'a, S: ByteSource + ?Sized>(v: Variable<'a, S>, slab: SlabView) -> bool {
    match (v.store, v.file.backend) {
        (VarStore::Hdf5(d), Backend::Hdf5(h)) => hyperslab_reads(h.context(), *d, slab)
            || match hyperslab_of(h.context(), *d, slab) {
            Err(_) => false,
            Ok(raw) => strings_read(h.context(), *d, raw),
        },
        (VarStore::Classic(c), Backend::Classic(file)) => slab.checked(v.info.shape@) is Ok
            && selection_reads(file.source.image(), c@, file.record_stride, slab),
        _ => false,
    }
}

/// Whether reading a selection, as the caller wrote it, reads anything of the file.
/// One that is refused is refused before.
pub open spec fn selection_read<'a, S: ByteSource + ?Sized>(
    v: Variable<'a, S>,
    extents: Option<Seq<Extent>>,
) -> bool {
    match selected_block(extents, v.info.path@, v.info.shape@) {
        Err(_) => false,
        Ok(slab) => values_read(v, slab),
    }
}

/// What a selection of a variable holds, as the caller wrote the selection.
pub open spec fn selected_values<'a, S: ByteSource + ?Sized>(
    v: Variable<'a, S>,
    extents: Option<Seq<Extent>>,
) -> std::result::Result<(RawDataView, Option<Seq<Seq<char>>>), ErrorView> {
    match selected_block(extents, v.info.path@, v.info.shape@) {
        Err(e) => Err(e),
        Ok(slab) => values_of(v, slab),
    }
}

/// The strings of a selection.
pub open spec fn strings_in<'a, S: ByteSource + ?Sized>(
    v: Variable<'a, S>,
    extents: Option<Seq<Extent>>,
) -> std::result::Result<Seq<Seq<char>>, ErrorView> {
    match selected_values(v, extents) {
        Err(e) => Err(e),
        Ok((raw, Some(strings))) => Ok(strings),
        Ok((raw, None)) => texts_in(store_datatype(v.store)@, raw.bytes),
    }
}

/// How numbers of a class are stored, where `width` bytes hold one and 64 bits
/// hold it too.
pub open spec fn numeric(class: ClassView, width: nat) -> Option<Kind> {
    match class {
        ClassView::FixedPoint { signed, .. } => if 0 < width <= 8 {
            if signed {
                Some(Kind::Signed)
            } else {
                Some(Kind::Unsigned)
            }
        } else {
            None
        },
        ClassView::FloatingPoint { .. } => if width == 4 || width == 8 {
            Some(Kind::Float)
        } else {
            None
        },
        _ => None,
    }
}

/// The numbers of a block, as `T`, where it holds numbers.
pub open spec fn numbers_as<T: Element>(d: DatatypeView, raw: RawDataView) -> std::result::Result<
    Seq<T>,
    ErrorView,
> {
    match numeric(d.class, raw.element_size) {
        Some(kind) => Ok(numbers_of::<T>(kind, raw.element_size, raw.bytes)),
        None => Err(
            ErrorView::TypeMismatch {
                stored: dtype_name(dtype_of(d)),
                asked: dtype_name(T::stored()),
                what: ""@,
            },
        ),
    }
}

/// The bits of each number of a list.
pub open spec fn bits_of<T: Element>(numbers: Seq<T>) -> Seq<u64> {
    Seq::new(numbers.len(), |i: int| numbers[i].pattern())
}

/// The shape of a block and the bits of its numbers, as `T`.
pub open spec fn array_as<T: Element>(d: DatatypeView, raw: RawDataView) -> std::result::Result<
    (Seq<u64>, Seq<u64>),
    ErrorView,
> {
    match numbers_as::<T>(d, raw) {
        Err(e) => Err(e),
        Ok(numbers) => match shaping(raw.shape, numbers.len()) {
            Err(e) => Err(e),
            Ok(_) => Ok((raw.shape, bits_of(numbers))),
        },
    }
}

/// The numbers of a selection, as `T`.
pub open spec fn numbers_in<'a, T: Element, S: ByteSource + ?Sized>(
    v: Variable<'a, S>,
    extents: Option<Seq<Extent>>,
) -> std::result::Result<Seq<T>, ErrorView> {
    match selected_values(v, extents) {
        Err(e) => Err(e),
        Ok((raw, _)) => numbers_as::<T>(store_datatype(v.store)@, raw),
    }
}

/// The shape of a selection and the bits of its numbers, as `T`.
pub open spec fn array_in<'a, T: Element, S: ByteSource + ?Sized>(
    v: Variable<'a, S>,
    extents: Option<Seq<Extent>>,
) -> std::result::Result<(Seq<u64>, Seq<u64>), ErrorView> {
    match selected_values(v, extents) {
        Err(e) => Err(e),
        Ok((raw, _)) => array_as::<T>(store_datatype(v.store)@, raw),
    }
}

/// The one item of a list, or an error that says how many there are instead.
pub open spec fn only<T>(what: Seq<char>, items: std::result::Result<Seq<T>, ErrorView>) -> std::result::Result<
    T,
    ErrorView,
> {
    match items {
        Err(e) => Err(e),
        Ok(s) => if s.len() == 1 {
            Ok(s[0])
        } else {
            Err(
                ErrorView::BadRequest(
                    "the selection on variable "@ + what + " names "@ + decimal(s.len())
                        + " elements, but one was asked for"@,
                ),
            )
        },
    }
}

/// How numbers of a class are stored, where `width` bytes hold one and 64 bits
/// hold it too.
fn kind_of(class: &DatatypeClass, width: usize) -> (r: Option<Kind>)
    ensures
        r == numeric(class_view(*class), width as nat),
{
    match class {
        DatatypeClass::FixedPoint { signed, .. } => if width == 0 || width > 8 {
            None
        } else if *signed {
            Some(Kind::Signed)
        } else {
            Some(Kind::Unsigned)
        },
        DatatypeClass::FloatingPoint { .. } => if width == 4 || width == 8 {
            Some(Kind::Float)
        } else {
            None
        },
        _ => None,
    }
}

impl<'a, S: ByteSource + ?Sized> Variable<'a, S> {
    /// Read an explicit selection.
    ///
    /// This is the engine behind every `get_*` method.
    pub fn read_selection(&self, slab: &Hyperslab) -> (r: Result<Values<'a>>)
        ensures
            agrees(
                match r {
                    Ok(v) => Ok((v.raw@, texts_view(v.vlen_strings))),
                    Err(e) => Err(e@),
                },
                values_of(*self, slab@),
                file_dependable(*self.file) || !values_read(*self, slab@),
            ),
            r matches Ok(v) ==> *v.datatype == store_datatype(self.store),
    {
        match self.store {
            VarStore::Hdf5(dataset) => {
                let hdf5 = match self.file.hdf5() {
                    Some(h) => h,
                    None => {
                        return Err(Error::malformed("an HDF5 variable without an HDF5 file"));
                    },
                };
                let raw = read_hyperslab(hdf5.ctx(), dataset, slab)?;
                values_from_raw(hdf5.ctx(), dataset, raw)
            },
            VarStore::Classic(variable) => {
                let classic = match self.file.classic() {
                    Some(c) => c,
                    None => {
                        return Err(Error::malformed("a classic variable without a classic file"));
                    },
                };
                slab.validate(self.info.shape.as_slice())?;
                // The bytes arrive least significant first already, exactly as
                // an HDF5 read leaves them.
                let bytes = classic.read_selection(variable, slab)?;
                let raw = RawData {
                    bytes,
                    element_size: variable.nc_type.size(),
                    shape: slice_to_vec(slab.count.as_slice()),
                };
                Ok(Values::from_parts(raw, &variable.datatype))
            },
        }
    }

    /// Read the values of a selection.
    fn read_extents(&self, extents: &Extents) -> (r: Result<Values<'a>>)
        ensures
            agrees(
                match r {
                    Ok(v) => Ok((v.raw@, texts_view(v.vlen_strings))),
                    Err(e) => Err(e@),
                },
                selected_values(*self, extents@),
                file_dependable(*self.file) || !selection_read(*self, extents@),
            ),
            r matches Ok(v) ==> *v.datatype == store_datatype(self.store),
    {
        let slab = extents.to_hyperslab(self.info.path.as_str(), self.info.shape.as_slice())?;
        self.read_selection(&slab)
    }

    /// Read the raw bytes of a selection, least significant byte first and in
    /// row-major order.
    ///
    /// Use it for a `char` variable, or to build your own typed array.
    pub fn get_raw_values(&self, extents: &Extents) -> (r: Result<Vec<u8>>)
        ensures
            agrees(
                seen(r),
                match selected_values(*self, extents@) {
                    Err(e) => Err(e),
                    Ok((raw, _)) => Ok(raw.bytes),
                },
                file_dependable(*self.file) || !selection_read(*self, extents@),
            ),
    {
        let values = self.read_extents(extents)?;
        Ok(values.into_raw().bytes)
    }

    /// Read strings, over any selection.
    ///
    /// A `string` variable holds one string in each element, so the result has
    /// one string for each element the selection names.
    ///
    /// A `char` variable holds one **byte** in each element. Its last dimension
    /// is the string length, so this returns one string for each character.
    /// The reader reports the elements as the file stores them.
    pub fn get_strings(&self, extents: &Extents) -> (r: Result<Vec<String>>)
        ensures
            agrees(
                match r {
                    Ok(v) => Ok(views(v@)),
                    Err(e) => Err(e@),
                },
                strings_in(*self, extents@),
                file_dependable(*self.file) || !selection_read(*self, extents@),
            ),
    {
        let values = self.read_extents(extents)?;
        values.to_strings()
    }

    /// Read one string. The selection must name one element.
    pub fn get_string(&self, extents: &Extents) -> (r: Result<String>)
        ensures
            agrees(
                seen(r),
                only(self.info.path@, strings_in(*self, extents@)),
                file_dependable(*self.file) || !selection_read(*self, extents@),
            ),
    {
        let strings = self.get_strings(extents)?;
        one_value(self.info.path.as_str(), strings)
    }

    /// Read numbers as `T`, over any selection.
    ///
    /// A `T` equal to [`Variable::vartype`] copies the values. Any other numeric
    /// type converts. See [`Element`]. A read of text as a number is an error
    /// that names the stored type.
    pub fn get_values<T: Element>(&self, extents: &Extents) -> (r: Result<Vec<T>>)
        ensures
            agrees(
                match r {
                    Ok(v) => Ok(v@),
                    Err(e) => Err(e@),
                },
                numbers_in::<T, S>(*self, extents@),
                file_dependable(*self.file) || !selection_read(*self, extents@),
            ),
    {
        let values = self.read_extents(extents)?;
        values.get::<T>()
    }

    /// Read one number as `T`. The selection must name one element.
    pub fn get_value<T: Element>(&self, extents: &Extents) -> (r: Result<T>)
        ensures
            agrees(
                match r {
                    Ok(v) => Ok(v),
                    Err(e) => Err(e@),
                },
                only(self.info.path@, numbers_in::<T, S>(*self, extents@)),
                file_dependable(*self.file) || !selection_read(*self, extents@),
            ),
    {
        let values = self.get_values::<T>(extents)?;
        one_value(self.info.path.as_str(), values)
    }

    /// Read numbers as an array of `T`, over any selection.
    ///
    /// The array's shape is the selection's shape, and its axes follow the
    /// variable's dimensions. Each number stands there by its bits.
    pub fn get<T: Element>(&self, extents: &Extents) -> (r: Result<ValueArray>)
        ensures
            agrees(
                match r {
                    Ok(a) => Ok((array_shape(a), array_items(a))),
                    Err(e) => Err(e@),
                },
                array_in::<T, S>(*self, extents@),
                file_dependable(*self.file) || !selection_read(*self, extents@),
            ),
    {
        let values = self.read_extents(extents)?;
        values.to_array::<T>()
    }
}

/// The strings of an optional list, each taken by its view.
pub open spec fn texts_view(strings: Option<Vec<String>>) -> Option<Seq<Seq<char>>> {
    match strings {
        Some(s) => Some(views(s@)),
        None => None,
    }
}

} // verus!
