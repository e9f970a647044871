use vstd::prelude::*;

use object::{Object, ObjectSection, ObjectSymbol, SectionKind, SymbolSection};

use crate::definitions::{ElfParser, Symbol, SymbolKind, SymbolView, symbols_view};
use crate::sorting::{lemma_insert_by_key_at, lemma_sort_by_key_sorted_permutation, sort_by_key};
use crate::text::{push_str, string_from_str};

verus! {

/// Where the symbol table places a symbol.
#[derive(Debug, Clone, Copy, PartialEq, Eq, Structural)]
pub enum SymbolPlacement {
    Unknown,
    NoSection,
    Undefined,
    Absolute,
    Common,
    /// Defined in the section with this index.
    Section(usize),
    Other,
}

/// What a section holds, as far as symbol kinds go.
#[derive(Debug, Clone, Copy, PartialEq, Eq, Structural)]
pub enum SectionClass {
    Text,
    Data,
    UninitializedData,
    ReadOnlyData,
    Other,
}

/// One entry of an object file's symbol table, as plain values.
#[derive(Debug, Clone)]
pub struct ObjectSymbolRecord {
    /// The name, or `None` where it is not valid UTF-8 or cannot be read.
    pub name: Option<String>,
    pub size: u64,
    pub undefined: bool,
    pub placement: SymbolPlacement,
}

pub struct ObjectSymbolRecordView {
    pub name: Option<Seq<char>>,
    pub size: u64,
    pub undefined: bool,
    pub placement: SymbolPlacement,
}

impl View for ObjectSymbolRecord {
    type V = ObjectSymbolRecordView;

    open spec fn view(&self) -> ObjectSymbolRecordView {
        ObjectSymbolRecordView {
            name: match self.name {
                Some(n) => Some(n@),
                None => None,
            },
            size: self.size,
            undefined: self.undefined,
            placement: self.placement,
        }
    }
}

pub open spec fn records_view(s: Seq<ObjectSymbolRecord>) -> Seq<ObjectSymbolRecordView> {
    s.map_values(|r: ObjectSymbolRecord| r@)
}

/// `object::File::parse` on these bytes: `None` when it succeeds, otherwise
/// the text of its error.
pub uninterp spec fn object_parse_failure(data: Seq<u8>) -> Option<Seq<char>>;

/// The symbols that `Object::symbols` yields for the file in these bytes,
/// each read through `ObjectSymbol::{name, size, is_undefined, section}`.
pub uninterp spec fn object_symbol_records(data: Seq<u8>) -> Seq<ObjectSymbolRecordView>;

/// The sections that `Object::sections` yields for the file in these bytes,
/// each with `ObjectSection::index` and the class of `ObjectSection::kind`.
pub uninterp spec fn object_section_classes(data: Seq<u8>) -> Seq<(usize, SectionClass)>;

/// Calls `object::File::parse` on `data` and reads every symbol that
/// `Object::symbols` yields: its name (`None` where `ObjectSymbol::name`
/// fails), size, `is_undefined`, and its `SymbolSection`, the section's index
/// kept as a plain number. Claimed: the call fails exactly when the parse
/// does, with the parse error's text, and otherwise gives these records in
/// the iterator's order; a symbol that `is_undefined` is placed `Undefined`
/// (true of every reader: ELF, Mach-O, COFF/PE and XCOFF). The converse holds
/// for ELF only (Mach-O stabs, COFF section symbols and XCOFF non-external
/// symbols can be placed `Undefined` without being undefined), so it is left
/// unsaid.
#[verifier::external_body]
fn read_object_symbols(data: &[u8]) -> (r: Result<Vec<ObjectSymbolRecord>, String>)
    ensures
        match r {
            Ok(v) => object_parse_failure(data@) is None && records_view(v@)
                == object_symbol_records(data@) && forall|i: int|
                0 <= i < v@.len() && (#[trigger] v@[i]).undefined ==> v@[i].placement
                    == SymbolPlacement::Undefined,
            Err(e) => object_parse_failure(data@) == Some(e@),
        },
{
    let file = object::File::parse(data).map_err(|e| e.to_string())?;
    Ok(file.symbols().map(|s| ObjectSymbolRecord {
        name: s.name().ok().map(String::from), size: s.size(), undefined: s.is_undefined(),
        placement: match s.section() {
            SymbolSection::Unknown => SymbolPlacement::Unknown,
            SymbolSection::None => SymbolPlacement::NoSection,
            SymbolSection::Undefined => SymbolPlacement::Undefined,
            SymbolSection::Absolute => SymbolPlacement::Absolute,
            SymbolSection::Common => SymbolPlacement::Common,
            SymbolSection::Section(i) => SymbolPlacement::Section(i.0),
            _ => SymbolPlacement::Other,
        },
    }).collect())
}

/// Calls `object::File::parse` on `data` and lists every section that
/// `Object::sections` yields, with its `ObjectSection::index` and whether
/// `ObjectSection::kind` is `Text`, `Data`, `UninitializedData`,
/// `ReadOnlyData` or any other kind. Claimed: the call fails exactly when the
/// parse does, and otherwise gives these pairs in the iterator's order. (For
/// an ELF file these are the indices from 1 to the number of section headers
/// minus one, exactly those that `Object::section_by_index` accepts.)
#[verifier::external_body]
fn read_object_sections(data: &[u8]) -> (r: Result<Vec<(usize, SectionClass)>, String>)
    ensures
        match r {
            Ok(v) => object_parse_failure(data@) is None && v@ == object_section_classes(data@),
            Err(e) => object_parse_failure(data@) == Some(e@),
        },
{
    let file = object::File::parse(data).map_err(|e| e.to_string())?;
    Ok(file.sections().map(|s| (s.index().0, match s.kind() {
        SectionKind::Text => SectionClass::Text,
        SectionKind::Data => SectionClass::Data,
        SectionKind::UninitializedData => SectionClass::UninitializedData,
        SectionKind::ReadOnlyData => SectionClass::ReadOnlyData,
        _ => SectionClass::Other,
    })).collect())
}

/// The class of the first listed section with index `index`, or `None` when
/// no section has it (the lookup fails).
pub open spec fn section_class_at(sections: Seq<(usize, SectionClass)>, index: usize) -> Option<
    SectionClass,
>
    decreases sections.len(),
{
    if sections.len() == 0 {
        None
    } else if sections[0].0 == index {
        Some(sections[0].1)
    } else {
        section_class_at(sections.drop_first(), index)
    }
}

/// The kind of a symbol with this placement.
pub open spec fn placement_kind(p: SymbolPlacement, sections: Seq<(usize, SectionClass)>) -> SymbolKind {
    match p {
        SymbolPlacement::Section(i) => match section_class_at(sections, i) {
            Some(SectionClass::Text) => SymbolKind::Code,
            Some(SectionClass::Data) => SymbolKind::Data,
            Some(SectionClass::UninitializedData) => SymbolKind::Bss,
            Some(SectionClass::ReadOnlyData) => SymbolKind::RoData,
            Some(SectionClass::Other) => SymbolKind::OtherSect,
            None => SymbolKind::ErrSection,
        },
        SymbolPlacement::Unknown => SymbolKind::Unknown,
        SymbolPlacement::NoSection => SymbolKind::NoSection,
        SymbolPlacement::Undefined => SymbolKind::Undefined,
        SymbolPlacement::Absolute => SymbolKind::Absolute,
        SymbolPlacement::Common => SymbolKind::Common,
        SymbolPlacement::Other => SymbolKind::Other,
    }
}

/// The symbol a record contributes: none when it is undefined, has size 0,
/// or has no readable name.
pub open spec fn record_symbol(r: ObjectSymbolRecordView, sections: Seq<(usize, SectionClass)>) -> Option<
    SymbolView,
> {
    if r.undefined || r.size == 0 {
        None
    } else {
        match r.name {
            Some(n) => Some(
                SymbolView {
                    name: n,
                    size: r.size as usize,
                    kind: placement_kind(r.placement, sections),
                    address: 0,
                },
            ),
            None => None,
        }
    }
}

/// The symbols that the records contribute, in record order.
pub open spec fn kept_symbols(
    records: Seq<ObjectSymbolRecordView>,
    sections: Seq<(usize, SectionClass)>,
) -> Seq<SymbolView>
    decreases records.len(),
{
    if records.len() == 0 {
        seq![]
    } else {
        let rest = kept_symbols(records.drop_last(), sections);
        match record_symbol(records.last(), sections) {
            Some(s) => rest.push(s),
            None => rest,
        }
    }
}

/// Larger symbols first.
pub open spec fn size_desc_key() -> spec_fn(SymbolView) -> int {
    |s: SymbolView| -(s.size as int)
}

fn find_section_class(sections: &Vec<(usize, SectionClass)>, index: usize) -> (r: Option<SectionClass>)
    ensures
        r == section_class_at(sections@, index),
{
    let mut i: usize = 0;
    assert(sections@.skip(0) == sections@);
    while i < sections.len()
        invariant
            i <= sections.len(),
            section_class_at(sections@, index) == section_class_at(sections@.skip(i as int), index),
        decreases sections.len() - i,
    {
        assert(sections@.skip(i as int)[0] == sections@[i as int]);
        if sections[i].0 == index {
            return Some(sections[i].1);
        }
        assert(sections@.skip(i as int).drop_first() == sections@.skip(i + 1));
        i += 1;
    }
    None
}

fn symbol_kind_of(p: SymbolPlacement, sections: &Vec<(usize, SectionClass)>) -> (k: SymbolKind)
    ensures
        k == placement_kind(p, sections@),
{
    match p {
        SymbolPlacement::Section(i) => match find_section_class(sections, i) {
            Some(SectionClass::Text) => SymbolKind::Code,
            Some(SectionClass::Data) => SymbolKind::Data,
            Some(SectionClass::UninitializedData) => SymbolKind::Bss,
            Some(SectionClass::ReadOnlyData) => SymbolKind::RoData,
            Some(SectionClass::Other) => SymbolKind::OtherSect,
            None => SymbolKind::ErrSection,
        },
        SymbolPlacement::Unknown => SymbolKind::Unknown,
        SymbolPlacement::NoSection => SymbolKind::NoSection,
        SymbolPlacement::Undefined => SymbolKind::Undefined,
        SymbolPlacement::Absolute => SymbolKind::Absolute,
        SymbolPlacement::Common => SymbolKind::Common,
        SymbolPlacement::Other => SymbolKind::Other,
    }
}

/// The symbols that the records of a symbol table contribute, in order:
/// defined symbols of nonzero size with a readable name, each with the kind
/// given by its section.
pub fn collect_object_symbols(
    records: &Vec<ObjectSymbolRecord>,
    sections: &Vec<(usize, SectionClass)>,
) -> (v: Vec<Symbol>)
    ensures
        symbols_view(v@) == kept_symbols(records_view(records@), sections@),
{
    let mut v: Vec<Symbol> = Vec::new();
    let mut i: usize = 0;
    while i < records.len()
        invariant
            i <= records.len(),
            symbols_view(v@) == kept_symbols(records_view(records@.take(i as int)), sections@),
        decreases records.len() - i,
    {
        let r = &records[i];
        assert(records_view(records@.take(i + 1)).drop_last() == records_view(records@.take(i as int)));
        assert(records_view(records@.take(i + 1)).last() == records@[i as int]@);
        if !r.undefined && r.size != 0 {
            match &r.name {
                Some(n) => {
                    let kind = symbol_kind_of(r.placement, sections);
                    let s = Symbol { name: n.clone(), size: r.size as usize, kind, address: 0 };
                    let ghost old_v = v@;
                    v.push(s);
                    assert(symbols_view(v@) == symbols_view(old_v).push(s@));
                },
                None => {},
            }
        }
        i += 1;
    }
    assert(records@.take(records.len() as int) == records@);
    v
}

/// Sorts symbols by size, largest first; symbols of equal size keep their
/// order (a stable sort, as `sort_by` is).
pub fn sort_by_size_desc(v: Vec<Symbol>) -> (r: Vec<Symbol>)
    ensures
        symbols_view(r@) == sort_by_key(symbols_view(v@), size_desc_key()),
        r@.len() == v@.len(),
        forall|i: int, j: int| 0 <= i < j < r@.len() ==> r@[i].size >= r@[j].size,
        symbols_view(r@).to_multiset() == symbols_view(v@).to_multiset(),
{
    let ghost orig = symbols_view(v@);
    let mut rest = v;
    let mut r: Vec<Symbol> = Vec::new();
    let n = rest.len();
    let mut i: usize = 0;
    assert(orig.take(0) =~= Seq::<SymbolView>::empty());
    assert(orig.skip(0) =~= orig);
    while i < n
        invariant
            n == orig.len(),
            i <= n,
            symbols_view(rest@) == orig.skip(i as int),
            symbols_view(r@) == sort_by_key(orig.take(i as int), size_desc_key()),
        decreases n - i,
    {
        assert(symbols_view(rest@).len() == rest@.len());
        assert(symbols_view(rest@)[0] == rest@[0]@);
        let ghost old_rest = rest@;
        let x = rest.remove(0);
        assert forall|k: int| 0 <= k < rest@.len() implies symbols_view(rest@)[k] == orig.skip(i + 1)[k] by {
            assert(rest@[k] == old_rest[k + 1]);
            assert(symbols_view(old_rest)[k + 1] == old_rest[k + 1]@);
        }
        assert(symbols_view(rest@) =~= orig.skip(i + 1));
        let mut j = r.len();
        while j > 0 && r[j - 1].size < x.size
            invariant
                j <= r.len(),
                forall|t: int| j <= t < r.len() ==> (#[trigger] r@[t]).size < x.size,
            decreases j,
        {
            j -= 1;
        }
        let ghost before = symbols_view(r@);
        proof {
            assert forall|t: int| j <= t < before.len() implies (size_desc_key())(#[trigger] before[t])
                > (size_desc_key())(x@) by {
                assert(before[t] == r@[t]@);
            }
            if j > 0 {
                assert(before[j - 1] == r@[j - 1]@);
            }
            lemma_insert_by_key_at(before, x@, size_desc_key(), j as int);
            assert(orig.take(i + 1).drop_last() =~= orig.take(i as int));
            assert(orig.take(i + 1).last() == x@);
        }
        r.insert(j, x);
        assert(symbols_view(r@) =~= before.insert(j as int, x@));
        i += 1;
    }
    assert(orig.take(n as int) =~= orig);
    proof {
        lemma_largest_first(orig);
        assert(symbols_view(r@).len() == r@.len());
        assert forall|i: int, j: int| 0 <= i < j < r@.len() implies r@[i].size >= r@[j].size by {
            assert(symbols_view(r@)[i] == r@[i]@);
            assert(symbols_view(r@)[j] == r@[j]@);
        }
    }
    r
}

/// Law: sorting largest first orders by the full size and keeps every
/// symbol: the result is a permutation of the input whose sizes never grow.
pub proof fn lemma_largest_first(s: Seq<SymbolView>)
    ensures
        sort_by_key(s, size_desc_key()).len() == s.len(),
        forall|i: int, j: int|
            0 <= i < j < s.len() ==> (#[trigger] sort_by_key(s, size_desc_key())[i]).size >= (
            #[trigger] sort_by_key(s, size_desc_key())[j]).size,
        sort_by_key(s, size_desc_key()).to_multiset() == s.to_multiset(),
{
    let r = sort_by_key(s, size_desc_key());
    lemma_sort_by_key_sorted_permutation(s, size_desc_key());
    assert forall|i: int, j: int| 0 <= i < j < s.len() implies (#[trigger] r[i]).size >= (
    #[trigger] r[j]).size by {
        assert((size_desc_key())(r[i]) <= (size_desc_key())(r[j]));
    }
}

/// The symbols of a symbol table: `collect_object_symbols`, then sorted by
/// size, largest first.
pub fn symbols_from_records(
    records: &Vec<ObjectSymbolRecord>,
    sections: &Vec<(usize, SectionClass)>,
) -> (v: Vec<Symbol>)
    ensures
        symbols_view(v@) == sort_by_key(
            kept_symbols(records_view(records@), sections@),
            size_desc_key(),
        ),
{
    sort_by_size_desc(collect_object_symbols(records, sections))
}

/// What the native parser gives for the object file `data`: the error when
/// the file cannot be parsed, otherwise its kept symbols, largest first.
pub open spec fn native_symbol_list(data: Seq<u8>) -> Result<Seq<SymbolView>, Seq<char>> {
    match object_parse_failure(data) {
        Some(e) => Err("Failed to parse ELF file: "@ + e),
        None => Ok(
            sort_by_key(
                kept_symbols(object_symbol_records(data), object_section_classes(data)),
                size_desc_key(),
            ),
        ),
    }
}

/// Reads symbols with the `object` crate.
pub struct NativeParser;

impl ElfParser for NativeParser {
    /// The symbols of the object file whose bytes are `input`.
    fn get_symbols(&self, input: &[u8]) -> (r: Result<Vec<Symbol>, String>)
        ensures
            match r {
                Ok(v) => native_symbol_list(input@) == Ok::<Seq<SymbolView>, Seq<char>>(
                    symbols_view(v@),
                ),
                Err(e) => native_symbol_list(input@) == Err::<Seq<SymbolView>, Seq<char>>(e@),
            },
            r matches Ok(v) ==> forall|i: int, j: int| 0 <= i < j < v@.len() ==> v@[i].size >= v@[j].size,
    {
        let records = match read_object_symbols(input) {
            Ok(records) => records,
            Err(e) => {
                let mut msg = string_from_str("Failed to parse ELF file: ");
                push_str(&mut msg, e.as_str());
                return Err(msg);
            },
        };
        let sections = match read_object_sections(input) {
            Ok(sections) => sections,
            Err(e) => {
                let mut msg = string_from_str("Failed to parse ELF file: ");
                push_str(&mut msg, e.as_str());
                return Err(msg);
            },
        };
        let v = symbols_from_records(&records, &sections);
        proof {
            lemma_largest_first(kept_symbols(records_view(records@), sections@));
            assert(symbols_view(v@).len() == v@.len());
            assert forall|i: int, j: int| 0 <= i < j < v@.len() implies v@[i].size >= v@[j].size by {
                assert(symbols_view(v@)[i] == v@[i]@);
                assert(symbols_view(v@)[j] == v@[j]@);
            }
        }
        Ok(v)
    }
}

} // verus!
