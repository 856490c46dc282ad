use vstd::prelude::*;
use crate::blueprint::Signal;

verus! {

/// The text that `str::to_uppercase` gives for a text.
pub uninterp spec fn uppercase_of(s: Seq<char>) -> Seq<char>;

/// `str::to_uppercase` of the standard library: the result is the upper
/// case of the text, which here has a name and no definition.
#[verifier::external_body]
fn to_upper(s: &str) -> (r: String)
    ensures
        r@ == uppercase_of(s@),
{
    s.to_uppercase()
}

/// The symbols that a program can name: for each symbol index the signal it
/// stands for and the identifier it is written with, in upper case.
#[derive(Debug)]
pub struct SymbolTable {
    pub signals: Vec<Signal>,
    pub idents: Vec<String>,
}

/// The last of the first `k` identifiers that is `upper`.
pub open spec fn last_named(idents: Seq<String>, upper: Seq<char>, k: int) -> Option<int>
    decreases k,
{
    if k <= 0 {
        None
    } else if idents[k - 1]@ == upper {
        Some(k - 1)
    } else {
        last_named(idents, upper, k - 1)
    }
}

impl SymbolTable {
    /// The index of the symbol that is written as `ident`, whatever the case
    /// of the letters: the last one, where several are.
    pub open spec fn symbol_of(&self, ident: Seq<char>) -> Option<int> {
        last_named(self.idents@, uppercase_of(ident), self.idents@.len() as int)
    }

    /// Every symbol has a signal and an identifier, and an index of 32 bits.
    pub open spec fn wf(&self) -> bool {
        self.signals@.len() == self.idents@.len() && self.signals@.len() <= u32::MAX
    }

    /// The number of symbols.
    pub open spec fn spec_len(&self) -> nat {
        self.signals@.len()
    }

    /// `index` is the last symbol that is written as `ident`, whatever the
    /// case of the letters.
    pub open spec fn names(&self, ident: Seq<char>, index: int) -> bool {
        &&& 0 <= index < self.idents@.len()
        &&& self.idents@[index]@ == uppercase_of(ident)
        &&& forall|j: int| index < j < self.idents@.len() ==> (#[trigger] self.idents@[j])@
            != uppercase_of(ident)
    }

    /// No symbol is written as `ident`.
    pub open spec fn lacks(&self, ident: Seq<char>) -> bool {
        forall|j: int| 0 <= j < self.idents@.len() ==> (#[trigger] self.idents@[j])@
            != uppercase_of(ident)
    }

    /// The number of symbols.
    pub fn len(&self) -> (r: usize)
        ensures
            r == self.spec_len(),
    {
        self.signals.len()
    }
}

/// The table of the given symbols, in their order: each entry is the
/// identifier of a symbol and its signal.
pub fn load_symbols(entries: &Vec<(String, Signal)>) -> (r: SymbolTable)
    requires
        entries@.len() <= u32::MAX,
    ensures
        r.wf(),
        r.spec_len() == entries@.len(),
        forall|i: int| 0 <= i < entries@.len() ==> #[trigger] r.signals@[i] == entries@[i].1,
        forall|i: int|
            0 <= i < entries@.len() ==> (#[trigger] r.idents@[i])@ == uppercase_of(entries@[i].0@),
{
    let mut signals: Vec<Signal> = Vec::with_capacity(entries.len());
    let mut idents: Vec<String> = Vec::with_capacity(entries.len());
    let mut i: usize = 0;
    while i < entries.len()
        invariant
            i <= entries@.len(),
            signals@.len() == i,
            idents@.len() == i,
            forall|q: int| 0 <= q < i ==> #[trigger] signals@[q] == entries@[q].1,
            forall|q: int| 0 <= q < i ==> (#[trigger] idents@[q])@ == uppercase_of(entries@[q].0@),
        decreases entries@.len() - i,
    {
        signals.push(entries[i].1.duplicate());
        idents.push(to_upper(entries[i].0.as_str()));
        i = i + 1;
    }
    SymbolTable { signals, idents }
}

/// The signal that symbol `index` stands for.
pub fn signal_from_symbol_index(table: &SymbolTable, index: u32) -> (r: Signal)
    requires
        index < table.spec_len(),
    ensures
        r == table.signals@[index as int],
{
    table.signals[index as usize].duplicate()
}

/// The index of the symbol that is written as `ident`: the last one, where
/// several are. `None` where there is none.
pub fn symbol_index_from_identifier(table: &SymbolTable, ident: &str) -> (r: Option<u32>)
    requires
        table.wf(),
    ensures
        match r {
            Some(index) => table.names(ident@, index as int) && table.symbol_of(ident@) == Some(
                index as int,
            ),
            None => table.lacks(ident@) && table.symbol_of(ident@) is None,
        },
{
    let upper = to_upper(ident);
    let mut i: usize = table.idents.len();
    while i > 0
        invariant
            i <= table.idents@.len(),
            table.wf(),
            upper@ == uppercase_of(ident@),
            forall|j: int| i <= j < table.idents@.len() ==> (#[trigger] table.idents@[j])@
                != uppercase_of(ident@),
            table.symbol_of(ident@) == last_named(table.idents@, uppercase_of(ident@), i as int),
        decreases i,
    {
        i = i - 1;
        if table.idents[i] == upper {
            return Some(i as u32);
        }
    }
    None
}

} // verus!
