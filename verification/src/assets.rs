use vstd::prelude::*;
use vstd::string::StringExecFns;

verus! {

/// The table of symbols: a JSON array of identifiers and their signals, the
/// index of a symbol being its place in the array.
pub const SYMBOLS_JSON: &'static str = "[{\"id\":\"A\",\"signal\":{\"type\":\"virtual\",\"name\":\"signal-A\"}},{\"id\":\"B\",\"signal\":{\"type\":\"virtual\",\"name\":\"signal-B\"}},{\"id\":\"C\",\"signal\":{\"type\":\"virtual\",\"name\":\"signal-C\"}},{\"id\":\"D\",\"signal\":{\"type\":\"virtual\",\"name\":\"signal-D\"}},{\"id\":\"E\",\"signal\":{\"type\":\"virtual\",\"name\":\"signal-E\"}},{\"id\":\"F\",\"signal\":{\"type\":\"virtual\",\"name\":\"signal-F\"}},{\"id\":\"G\",\"signal\":{\"type\":\"virtual\",\"name\":\"signal-G\"}},{\"id\":\"H\",\"signal\":{\"type\":\"virtual\",\"name\":\"signal-H\"}},{\"id\":\"I\",\"signal\":{\"type\":\"virtual\",\"name\":\"signal-I\"}},{\"id\":\"J\",\"signal\":{\"type\":\"virtual\",\"name\":\"signal-J\"}},{\"id\":\"K\",\"signal\":{\"type\":\"virtual\",\"name\":\"signal-K\"}},{\"id\":\"L\",\"signal\":{\"type\":\"virtual\",\"name\":\"signal-L\"}},{\"id\":\"M\",\"signal\":{\"type\":\"virtual\",\"name\":\"signal-M\"}},{\"id\":\"N\",\"signal\":{\"type\":\"virtual\",\"name\":\"signal-N\"}},{\"id\":\"O\",\"signal\":{\"type\":\"virtual\",\"name\":\"signal-O\"}},{\"id\":\"P\",\"signal\":{\"type\":\"virtual\",\"name\":\"signal-P\"}},{\"id\":\"Q\",\"signal\":{\"type\":\"virtual\",\"name\":\"signal-Q\"}},{\"id\":\"R\",\"signal\":{\"type\":\"virtual\",\"name\":\"signal-R\"}},{\"id\":\"S\",\"signal\":{\"type\":\"virtual\",\"name\":\"signal-S\"}},{\"id\":\"T\",\"signal\":{\"type\":\"virtual\",\"name\":\"signal-T\"}},{\"id\":\"U\",\"signal\":{\"type\":\"virtual\",\"name\":\"signal-U\"}},{\"id\":\"V\",\"signal\":{\"type\":\"virtual\",\"name\":\"signal-V\"}},{\"id\":\"W\",\"signal\":{\"type\":\"virtual\",\"name\":\"signal-W\"}},{\"id\":\"X\",\"signal\":{\"type\":\"virtual\",\"name\":\"signal-X\"}},{\"id\":\"Y\",\"signal\":{\"type\":\"virtual\",\"name\":\"signal-Y\"}},{\"id\":\"Z\",\"signal\":{\"type\":\"virtual\",\"name\":\"signal-Z\"}},{\"id\":\"0\",\"signal\":{\"type\":\"virtual\",\"name\":\"signal-0\"}},{\"id\":\"1\",\"signal\":{\"type\":\"virtual\",\"name\":\"signal-1\"}},{\"id\":\"2\",\"signal\":{\"type\":\"virtual\",\"name\":\"signal-2\"}},{\"id\":\"3\",\"signal\":{\"type\":\"virtual\",\"name\":\"signal-3\"}},{\"id\":\"4\",\"signal\":{\"type\":\"virtual\",\"name\":\"signal-4\"}},{\"id\":\"5\",\"signal\":{\"type\":\"virtual\",\"name\":\"signal-5\"}},{\"id\":\"6\",\"signal\":{\"type\":\"virtual\",\"name\":\"signal-6\"}},{\"id\":\"7\",\"signal\":{\"type\":\"virtual\",\"name\":\"signal-7\"}},{\"id\":\"8\",\"signal\":{\"type\":\"virtual\",\"name\":\"signal-8\"}},{\"id\":\"9\",\"signal\":{\"type\":\"virtual\",\"name\":\"signal-9\"}},{\"id\":\"red\",\"signal\":{\"type\":\"virtual\",\"name\":\"signal-red\"}},{\"id\":\"green\",\"signal\":{\"type\":\"virtual\",\"name\":\"signal-green\"}},{\"id\":\"blue\",\"signal\":{\"type\":\"virtual\",\"name\":\"signal-blue\"}},{\"id\":\"yellow\",\"signal\":{\"type\":\"virtual\",\"name\":\"signal-yellow\"}},{\"id\":\"pink\",\"signal\":{\"type\":\"virtual\",\"name\":\"signal-pink\"}},{\"id\":\"cyan\",\"signal\":{\"type\":\"virtual\",\"name\":\"signal-cyan\"}},{\"id\":\"white\",\"signal\":{\"type\":\"virtual\",\"name\":\"signal-white\"}},{\"id\":\"grey\",\"signal\":{\"type\":\"virtual\",\"name\":\"signal-grey\"}},{\"id\":\"black\",\"signal\":{\"type\":\"virtual\",\"name\":\"signal-black\"}},{\"id\":\"check\",\"signal\":{\"type\":\"virtual\",\"name\":\"signal-check\"}},{\"id\":\"info\",\"signal\":{\"type\":\"virtual\",\"name\":\"signal-info\"}},{\"id\":\"dot\",\"signal\":{\"type\":\"virtual\",\"name\":\"signal-dot\"}},{\"id\":\"each\",\"signal\":{\"type\":\"virtual\",\"name\":\"signal-each\"}},{\"id\":\"anything\",\"signal\":{\"type\":\"virtual\",\"name\":\"signal-anything\"}},{\"id\":\"everything\",\"signal\":{\"type\":\"virtual\",\"name\":\"signal-everything\"}}]";

/// The modules that are compiled before every program.
pub const PRELUDE_CDL: &'static str = "// Modules that every program can call.\n\n// 1 where the value is not zero, else 0.\nmod bool(x) {\n    output(x != 0);\n}\n\n// The value without its sign.\nmod abs(x) {\n    let neg = x < 0;\n    let pos = x > 0;\n    output(x * (pos - neg));\n}\n\n// The smaller of two values.\nmod min(a, b) {\n    let d = a - b;\n    let less = d < 0;\n    output(b + d * less);\n}\n\n// The greater of two values.\nmod max(a, b) {\n    let d = a - b;\n    let more = d > 0;\n    output(b + d * more);\n}\n";

/// The text of the asset of the given name: the table of symbols under
/// `symbols.json`, the prelude under `std/prelude.cdl`. `None` for any other
/// name.
pub fn get_asset_string(filename: &str) -> (r: Option<String>)
    ensures
        r is Some <==> filename@ == "symbols.json"@ || filename@ == "std/prelude.cdl"@,
        filename@ == "symbols.json"@ ==> r is Some && r->Some_0@ == SYMBOLS_JSON@,
        filename@ == "std/prelude.cdl"@ && filename@ != "symbols.json"@ ==> r is Some
            && r->Some_0@ == PRELUDE_CDL@,
{
    let name = String::from_str(filename);
    if name == String::from_str("symbols.json") {
        Some(String::from_str(SYMBOLS_JSON))
    } else if name == String::from_str("std/prelude.cdl") {
        Some(String::from_str(PRELUDE_CDL))
    } else {
        None
    }
}

} // verus!
