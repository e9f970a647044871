use vstd::prelude::*;

use crate::definitions::{ElfParser, Symbol, SymbolView, symbols_view};
use crate::goblin::{GoblinParser, goblin_symbol_list};
use crate::native::{NativeParser, native_symbol_list};
use crate::nm::{NmParser, nm_symbol_list};
use crate::text::{push_str, string_from_str};

verus! {

/// One of the symbol parsers.
pub enum ParserChoice {
    Nm(NmParser),
    Native(NativeParser),
    Goblin(GoblinParser),
}

/// The parser with the given name: "nm", "native" or "goblin".
pub fn create_parser(parser_name: &str, _path: &str) -> (r: Result<ParserChoice, String>)
    ensures
        parser_name@ == "nm"@ ==> (r matches Ok(ParserChoice::Nm(p)) && p.nm_path@ == "nm"@),
        parser_name@ == "native"@ ==> r matches Ok(ParserChoice::Native(_)),
        parser_name@ == "goblin"@ ==> r matches Ok(ParserChoice::Goblin(_)),
        parser_name@ != "nm"@ && parser_name@ != "native"@ && parser_name@ != "goblin"@ ==> (r
            matches Err(e) && e@ == "Unknown parser type: "@ + parser_name@),
{
    proof {
        reveal_strlit("nm");
        reveal_strlit("native");
        reveal_strlit("goblin");
        assert("nm"@.len() != "native"@.len());
        assert("nm"@.len() != "goblin"@.len());
        assert("native"@[0] != "goblin"@[0]);
    }
    let name = string_from_str(parser_name);
    if name == string_from_str("nm") {
        Ok(ParserChoice::Nm(NmParser::default()))
    } else if name == string_from_str("native") {
        Ok(ParserChoice::Native(NativeParser))
    } else if name == string_from_str("goblin") {
        Ok(ParserChoice::Goblin(GoblinParser))
    } else {
        let mut msg = string_from_str("Unknown parser type: ");
        push_str(&mut msg, parser_name);
        Err(msg)
    }
}

impl ElfParser for ParserChoice {
    /// The symbols that the chosen parser reads from `input`.
    fn get_symbols(&self, input: &[u8]) -> (r: Result<Vec<Symbol>, String>)
        ensures
            ({
                let expected = match self {
                    ParserChoice::Nm(_) => nm_symbol_list(input@),
                    ParserChoice::Native(_) => native_symbol_list(input@),
                    ParserChoice::Goblin(_) => goblin_symbol_list(input@),
                };
                match r {
                    Ok(v) => expected == Ok::<Seq<SymbolView>, Seq<char>>(symbols_view(v@)),
                    Err(e) => expected == Err::<Seq<SymbolView>, Seq<char>>(e@),
                }
            }),
    {
        match self {
            ParserChoice::Nm(p) => p.get_symbols(input),
            ParserChoice::Native(p) => p.get_symbols(input),
            ParserChoice::Goblin(p) => p.get_symbols(input),
        }
    }
}

} // verus!
