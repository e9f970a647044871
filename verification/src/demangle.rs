use vstd::prelude::*;

use crate::definitions::{Symbol, SymbolView};
use crate::text::string_from_str;

verus! {

/// `rustc_demangle::try_demangle(raw)` rendered with `{:#}` (the path
/// without the hash suffix), or `None` when `try_demangle` fails.
pub uninterp spec fn rust_demangling(raw: Seq<char>) -> Option<Seq<char>>;

/// `rustc_demangle::try_demangle(raw)` rendered with plain `Display`
/// (`to_string`, which keeps a legacy name's `::h<hash>` suffix), or `None`
/// when `try_demangle` fails.
pub uninterp spec fn rust_demangling_with_hash(raw: Seq<char>) -> Option<Seq<char>>;

/// `cpp_demangle::Symbol::new(raw.as_bytes())` followed by `demangle()`,
/// or `None` when either step fails.
pub uninterp spec fn cpp_demangling(raw: Seq<char>) -> Option<Seq<char>>;

/// Calls `rustc_demangle::try_demangle` and renders a success with the
/// alternate format `{:#}`. Claimed: the outcome is a function of `raw`
/// alone.
#[verifier::external_body]
fn try_rust_demangle(raw: &str) -> (r: Option<String>)
    ensures
        match r {
            Some(d) => rust_demangling(raw@) == Some(d@),
            None => rust_demangling(raw@) is None,
        },
{
    rustc_demangle::try_demangle(raw).ok().map(|d| format!("{:#}", d))
}

/// Calls `rustc_demangle::try_demangle` and renders a success with plain
/// `Display` (`to_string`). Claimed: the outcome is a function of `raw`
/// alone.
#[verifier::external_body]
fn try_rust_demangle_with_hash(raw: &str) -> (r: Option<String>)
    ensures
        match r {
            Some(d) => rust_demangling_with_hash(raw@) == Some(d@),
            None => rust_demangling_with_hash(raw@) is None,
        },
{
    rustc_demangle::try_demangle(raw).ok().map(|d| d.to_string())
}

/// Calls `cpp_demangle::Symbol::new` on the bytes of `raw` and then
/// `Symbol::demangle` (default options). Claimed: the outcome is a function
/// of `raw` alone.
#[verifier::external_body]
fn try_cpp_demangle(raw: &str) -> (r: Option<String>)
    ensures
        match r {
            Some(d) => cpp_demangling(raw@) == Some(d@),
            None => cpp_demangling(raw@) is None,
        },
{
    cpp_demangle::Symbol::new(raw.as_bytes()).ok()?.demangle().ok()
}

pub open spec fn option_view(o: Option<String>) -> Option<Seq<char>> {
    match o {
        Some(s) => Some(s@),
        None => None,
    }
}

/// The name to show for `raw`, given what the Rust and the C++ demanglers
/// made of it: the Rust demangling when it succeeded and changed the name,
/// else the C++ demangling when it succeeded, else `raw` itself.
pub open spec fn pick_demangled(
    raw: Seq<char>,
    rust: Option<Seq<char>>,
    cpp: Option<Seq<char>>,
) -> Seq<char> {
    if rust is Some && rust->0 != raw {
        rust->0
    } else if cpp is Some {
        cpp->0
    } else {
        raw
    }
}

/// The demangled form of `raw`.
pub open spec fn demangled_name(raw: Seq<char>) -> Seq<char> {
    pick_demangled(raw, rust_demangling(raw), cpp_demangling(raw))
}

/// Chooses the name to show for `raw_name` from the demanglers' results.
pub fn select_demangled(raw_name: &str, rust: Option<String>, cpp: Option<String>) -> (r: String)
    ensures
        r@ == pick_demangled(raw_name@, option_view(rust), option_view(cpp)),
{
    let raw = string_from_str(raw_name);
    match rust {
        Some(d) => {
            if !(d == raw) {
                return d;
            }
        },
        None => {},
    }
    match cpp {
        Some(d) => d,
        None => raw,
    }
}

/// Demangles a symbol name: first as a Rust symbol, then as a C++ symbol;
/// a name that neither demangles is returned unchanged.
pub fn demangle_symbol_name(raw_name: &str) -> (r: String)
    ensures
        r@ == demangled_name(raw_name@),
{
    let rust = try_rust_demangle(raw_name);
    let rust_decides = match &rust {
        Some(d) => {
            let raw = string_from_str(raw_name);
            !(*d == raw)
        },
        None => false,
    };
    let cpp = if rust_decides {
        None
    } else {
        try_cpp_demangle(raw_name)
    };
    select_demangled(raw_name, rust, cpp)
}

/// The demangled form of `raw`, with a Rust name's hash suffix kept.
pub open spec fn demangled_name_with_hash(raw: Seq<char>) -> Seq<char> {
    pick_demangled(raw, rust_demangling_with_hash(raw), cpp_demangling(raw))
}

/// Demangles a symbol name as `demangle_symbol_name` does, but renders a
/// Rust name in full, hash suffix included.
pub fn demangle_symbol_name_with_hash(raw_name: &str) -> (r: String)
    ensures
        r@ == demangled_name_with_hash(raw_name@),
{
    let rust = try_rust_demangle_with_hash(raw_name);
    let rust_decides = match &rust {
        Some(d) => {
            let raw = string_from_str(raw_name);
            !(*d == raw)
        },
        None => false,
    };
    let cpp = if rust_decides {
        None
    } else {
        try_cpp_demangle(raw_name)
    };
    select_demangled(raw_name, rust, cpp)
}

impl Symbol {
    /// Replaces the name by its demangled form.
    pub fn demangle(&mut self)
        ensures
            final(self)@ == (SymbolView { name: demangled_name(old(self).name@), ..old(self)@ }),
    {
        self.name = demangle_symbol_name(self.name.as_str());
    }
}

/// Demangles the name of every symbol, keeping the hash suffix of Rust
/// names.
pub fn demangle_symbols(symbols: &mut [Symbol])
    ensures
        final(symbols)@.len() == old(symbols)@.len(),
        forall|i: int|
            0 <= i < old(symbols)@.len() ==> (#[trigger] final(symbols)@[i])@ == (SymbolView {
                name: demangled_name_with_hash(old(symbols)@[i].name@),
                ..old(symbols)@[i]@
            }),
{
    let mut i: usize = 0;
    while i < symbols.len()
        invariant
            i <= symbols.len() == old(symbols)@.len(),
            forall|j: int|
                0 <= j < i ==> (#[trigger] symbols@[j])@ == (SymbolView {
                    name: demangled_name_with_hash(old(symbols)@[j].name@),
                    ..old(symbols)@[j]@
                }),
            forall|j: int| i <= j < symbols.len() ==> #[trigger] symbols@[j] == old(symbols)@[j],
        decreases symbols.len() - i,
    {
        let name = demangle_symbol_name_with_hash(symbols[i].name.as_str());
        symbols[i].name = name;
        i += 1;
    }
}

} // verus!
