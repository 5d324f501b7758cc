//! The symbols of a parser: its tokens and its resolved values, each with an index.

use crate::errors::{GazetteerParserError, GazetteerParserResult};
use vstd::hash_map::StringHashMap;
use vstd::prelude::*;

verus! {

broadcast use vstd::string::group_string_axioms;

/// A list of symbols, in which a symbol may stand several times. The index of a symbol is its place.
pub struct GazetteerParserSymbolTable {
    symbols: Vec<String>,
    indices: StringHashMap<Vec<u32>>,
}

impl View for GazetteerParserSymbolTable {
    type V = Seq<Seq<char>>;

    closed spec fn view(&self) -> Seq<Seq<char>> {
        self.symbols@.map_values(|symbol: String| symbol@)
    }
}

/// The places at which `symbol` stands, in ascending order.
pub open spec fn indices_of(symbols: Seq<Seq<char>>, symbol: Seq<char>) -> Seq<u32>
    decreases symbols.len(),
{
    if symbols.len() == 0 {
        Seq::empty()
    } else if symbols.last() == symbol {
        indices_of(symbols.drop_last(), symbol).push((symbols.len() - 1) as u32)
    } else {
        indices_of(symbols.drop_last(), symbol)
    }
}

/// The index of `symbol`, where it has one.
pub open spec fn single_index(symbols: Seq<Seq<char>>, symbol: Seq<char>) -> GazetteerParserResult<
    Option<u32>,
> {
    let indices = indices_of(symbols, symbol);
    if indices.len() == 0 {
        Ok(None)
    } else if indices.len() == 1 {
        Ok(Some(indices[0]))
    } else {
        Err(GazetteerParserError::AmbiguousSymbol)
    }
}

/// The symbols after `symbol` has been added, and the index of `symbol`. A symbol that is there is
/// added once more only if `force_add` is set.
pub open spec fn with_symbol(
    symbols: Seq<Seq<char>>,
    symbol: Seq<char>,
    force_add: bool,
) -> GazetteerParserResult<(Seq<Seq<char>>, u32)> {
    if force_add || !symbols.contains(symbol) {
        if symbols.len() < u32::MAX {
            Ok((symbols.push(symbol), symbols.len() as u32))
        } else {
            Err(GazetteerParserError::TooManySymbols)
        }
    } else if indices_of(symbols, symbol).len() == 1 {
        Ok((symbols, indices_of(symbols, symbol)[0]))
    } else {
        Err(GazetteerParserError::AmbiguousSymbol)
    }
}

/// [`indices_of`] gives every place of `symbol` once.
pub proof fn lemma_indices_of(symbols: Seq<Seq<char>>, symbol: Seq<char>)
    requires
        symbols.len() <= u32::MAX,
    ensures
        forall|k: int|
            0 <= k < indices_of(symbols, symbol).len() ==> {
                &&& (#[trigger] indices_of(symbols, symbol)[k]) < symbols.len()
                &&& symbols[indices_of(symbols, symbol)[k] as int] == symbol
            },
        forall|i: int|
            0 <= i < symbols.len() && #[trigger] symbols[i] == symbol ==> indices_of(
                symbols,
                symbol,
            ).contains(i as u32),
        forall|j: int, k: int|
            0 <= j < k < indices_of(symbols, symbol).len() ==> indices_of(symbols, symbol)[j]
                < indices_of(symbols, symbol)[k],
    decreases symbols.len(),
{
    if symbols.len() > 0 {
        let before = indices_of(symbols.drop_last(), symbol);
        let after = indices_of(symbols, symbol);
        lemma_indices_of(symbols.drop_last(), symbol);
        assert forall|i: int| 0 <= i < symbols.len() && #[trigger] symbols[i] == symbol implies after.contains(
            i as u32,
        ) by {
            if i < symbols.len() - 1 {
                assert(symbols.drop_last()[i] == symbol);
                let k = choose|k: int| 0 <= k < before.len() && before[k] == i as u32;
                assert(after[k] == i as u32);
            } else {
                assert(after[after.len() - 1] == i as u32);
            }
        }
    }
}

/// A symbol that stands in one place only has that place as its index.
pub proof fn lemma_single_index(symbols: Seq<Seq<char>>, place: int)
    requires
        symbols.len() <= u32::MAX,
        0 <= place < symbols.len(),
        forall|i: int| 0 <= i < symbols.len() && i != place ==> #[trigger] symbols[i] != symbols[place],
    ensures
        indices_of(symbols, symbols[place]) == seq![place as u32],
{
    let indices = indices_of(symbols, symbols[place]);
    lemma_indices_of(symbols, symbols[place]);
    assert(indices.contains(place as u32));
    assert forall|k: int| 0 <= k < indices.len() implies #[trigger] indices[k] == place as u32 by {
        assert(symbols[indices[k] as int] == symbols[place]);
    }
    if indices.len() > 1 {
        assert(indices[0] < indices[1]);
    }
    assert(indices =~= seq![place as u32]);
}

/// A symbol that stands nowhere has no index.
pub proof fn lemma_no_index(symbols: Seq<Seq<char>>, symbol: Seq<char>)
    requires
        symbols.len() <= u32::MAX,
    ensures
        indices_of(symbols, symbol).len() == 0 <==> !symbols.contains(symbol),
{
    lemma_indices_of(symbols, symbol);
    let indices = indices_of(symbols, symbol);
    if indices.len() > 0 {
        assert(symbols[indices[0] as int] == symbol);
    }
    if symbols.contains(symbol) {
        let i = choose|i: int| 0 <= i < symbols.len() && symbols[i] == symbol;
        assert(indices.contains(i as u32));
    }
}

/// A symbol that has been added stands at the index that is given for it, and the symbols before keep
/// theirs. If it was not forced, it is found by that index alone.
pub proof fn law_added_symbol_is_found(symbols: Seq<Seq<char>>, symbol: Seq<char>, force_add: bool)
    requires
        symbols.len() <= u32::MAX,
        with_symbol(symbols, symbol, force_add) is Ok,
    ensures
        ({
            let (after, index) = with_symbol(symbols, symbol, force_add)->Ok_0;
            &&& symbols.is_prefix_of(after)
            &&& index < after.len()
            &&& after[index as int] == symbol
            &&& !force_add ==> single_index(after, symbol) == Ok::<Option<u32>, GazetteerParserError>(
                Some(index),
            )
        }),
{
    let (after, index) = with_symbol(symbols, symbol, force_add)->Ok_0;
    lemma_indices_of(symbols, symbol);
    lemma_no_index(symbols, symbol);
    if force_add || !symbols.contains(symbol) {
        assert(after.drop_last() =~= symbols);
    }
}

/// A symbol has an index if it stands in one place, and no other; that place is its index. It has none if it
/// stands nowhere, and is ambiguous if it stands in two places.
pub proof fn law_index_is_the_only_place(symbols: Seq<Seq<char>>, symbol: Seq<char>)
    requires
        symbols.len() <= u32::MAX,
    ensures
        match single_index(symbols, symbol) {
            Ok(None) => forall|i: int| 0 <= i < symbols.len() ==> #[trigger] symbols[i] != symbol,
            Ok(Some(index)) => {
                &&& index < symbols.len()
                &&& symbols[index as int] == symbol
                &&& forall|i: int| 0 <= i < symbols.len() && i != index ==> #[trigger] symbols[i] != symbol
            },
            Err(error) => {
                &&& error == GazetteerParserError::AmbiguousSymbol
                &&& exists|i: int, j: int|
                    0 <= i < j < symbols.len() && #[trigger] symbols[i] == symbol && #[trigger] symbols[j]
                        == symbol
            },
        },
{
    lemma_indices_of(symbols, symbol);
    lemma_no_index(symbols, symbol);
    let indices = indices_of(symbols, symbol);
    if indices.len() == 0 {
        assert forall|i: int| 0 <= i < symbols.len() implies #[trigger] symbols[i] != symbol by {
            assert(!symbols.contains(symbol));
        }
    } else if indices.len() == 1 {
        assert(symbols[indices[0] as int] == symbol);
        assert forall|i: int| 0 <= i < symbols.len() && i != indices[0] implies #[trigger] symbols[i]
            != symbol by {
            if symbols[i] == symbol {
                assert(indices.contains(i as u32));
            }
        }
    } else {
        assert(symbols[indices[0] as int] == symbol && symbols[indices[1] as int] == symbol);
        assert(indices[0] < indices[1]);
    }
}

/// A symbol that is forced or new becomes the last one, unless there are as many as indices. Any other is left
/// where it stands: nothing changes.
pub proof fn law_added_symbols(symbols: Seq<Seq<char>>, symbol: Seq<char>, force_add: bool)
    requires
        symbols.len() <= u32::MAX,
    ensures
        match with_symbol(symbols, symbol, force_add) {
            Ok((after, index)) => if force_add || !symbols.contains(symbol) {
                after == symbols.push(symbol) && index == symbols.len()
            } else {
                after == symbols && index < symbols.len() && symbols[index as int] == symbol
            },
            Err(GazetteerParserError::TooManySymbols) => {
                &&& symbols.len() == u32::MAX
                &&& force_add || !symbols.contains(symbol)
            },
            Err(error) => {
                &&& error == GazetteerParserError::AmbiguousSymbol
                &&& !force_add
                &&& exists|i: int, j: int|
                    0 <= i < j < symbols.len() && #[trigger] symbols[i] == symbol && #[trigger] symbols[j]
                        == symbol
            },
        },
{
    lemma_indices_of(symbols, symbol);
    lemma_no_index(symbols, symbol);
    law_index_is_the_only_place(symbols, symbol);
}

impl GazetteerParserSymbolTable {
    /// The lookup by symbol agrees with the list, and every place is an index.
    pub closed spec fn wf(&self) -> bool {
        &&& self@.len() <= u32::MAX
        &&& forall|symbol: Seq<char>| #[trigger]
            self.indices@.contains_key(symbol) <==> self@.contains(symbol)
        &&& forall|symbol: Seq<char>| #[trigger]
            self.indices@.contains_key(symbol) ==> self.indices@[symbol]@ == indices_of(self@, symbol)
    }

    /// Every place is an index of 32 bits.
    pub proof fn lemma_length(&self)
        requires
            self.wf(),
        ensures
            self@.len() <= u32::MAX,
    {
    }

    /// The empty table.
    pub fn new() -> (table: Self)
        ensures
            table.wf(),
            table@ == Seq::<Seq<char>>::empty(),
    {
        let table = GazetteerParserSymbolTable { symbols: Vec::new(), indices: StringHashMap::new() };
        assert(table@ =~= Seq::<Seq<char>>::empty());
        table
    }

    /// Adds a symbol and returns its index. A symbol that is there is added once more only if
    /// `force_add` is set; otherwise it must stand in one place.
    pub fn add_symbol(&mut self, symbol: &str, force_add: bool) -> (index: GazetteerParserResult<u32>)
        requires
            old(self).wf(),
        ensures
            final(self).wf(),
            match with_symbol(old(self)@, symbol@, force_add) {
                Ok((symbols, place)) => index == Ok::<u32, GazetteerParserError>(place) && final(self)@
                    == symbols,
                Err(error) => index == Err::<u32, GazetteerParserError>(error) && final(self)@ == old(
                    self,
                )@,
            },
    {
        let mut places: Vec<u32> = Vec::new();
        proof {
            lemma_no_index(self@, symbol@);
        }
        if let Some(known) = self.indices.get(symbol) {
            if !force_add {
                if known.len() == 1 {
                    return Ok(known[0]);
                }
                return Err(GazetteerParserError::AmbiguousSymbol);
            }
            let mut i: usize = 0;
            while i < known.len()
                invariant
                    i <= known.len(),
                    places@ == known@.take(i as int),
                decreases known.len() - i,
            {
                places.push(known[i]);
                i = i + 1;
                assert(places@ =~= known@.take(i as int));
            }
            assert(places@ =~= known@);
        }
        assert(places@ =~= indices_of(self@, symbol@));
        if self.symbols.len() >= u32::MAX as usize {
            return Err(GazetteerParserError::TooManySymbols);
        }
        let place: u32 = self.symbols.len() as u32;
        places.push(place);
        self.symbols.push(symbol.to_owned());
        self.indices.insert(symbol.to_owned(), places);
        proof {
            let before = old(self)@;
            assert(self@ =~= before.push(symbol@));
            assert(self@.drop_last() =~= before);
            assert forall|other: Seq<char>| #[trigger]
                self.indices@.contains_key(other) <==> self@.contains(other) by {
                if self@.contains(other) && other != symbol@ {
                    let i = choose|i: int| 0 <= i < self@.len() && self@[i] == other;
                    assert(before[i] == other);
                }
                if before.contains(other) {
                    let i = choose|i: int| 0 <= i < before.len() && before[i] == other;
                    assert(self@[i] == other);
                }
                if other == symbol@ {
                    assert(self@[before.len() as int] == other);
                }
                assert(old(self).indices@.contains_key(other) <==> before.contains(other));
            }
            assert forall|other: Seq<char>| #[trigger]
                self.indices@.contains_key(other) implies self.indices@[other]@ == indices_of(
                self@,
                other,
            ) by {
                if other != symbol@ {
                    assert(old(self).indices@.contains_key(other));
                }
            }
        }
        Ok(place)
    }

    /// The index of a symbol, or `None` where the symbol is not there. It is an error if the symbol
    /// has several indices.
    pub fn find_single_symbol(&self, symbol: &str) -> (index: GazetteerParserResult<Option<u32>>)
        requires
            self.wf(),
        ensures
            index == single_index(self@, symbol@),
    {
        proof {
            lemma_no_index(self@, symbol@);
        }
        match self.indices.get(symbol) {
            None => Ok(None),
            Some(known) => {
                if known.len() == 1 {
                    Ok(Some(known[0]))
                } else {
                    Err(GazetteerParserError::AmbiguousSymbol)
                }
            },
        }
    }

    /// The symbol at an index.
    pub fn find_index(&self, index: u32) -> (symbol: GazetteerParserResult<String>)
        ensures
            match symbol {
                Ok(found) => index < self@.len() && found@ == self@[index as int],
                Err(error) => index >= self@.len() && error == GazetteerParserError::MissingIndex(index),
            },
    {
        if (index as usize) < self.symbols.len() {
            Ok(self.symbols[index as usize].clone())
        } else {
            Err(GazetteerParserError::MissingIndex(index))
        }
    }

    /// The symbols in the order of their indices.
    pub fn symbols(&self) -> (symbols: &Vec<String>)
        ensures
            symbols@.map_values(|symbol: String| symbol@) == self@,
    {
        &self.symbols
    }

    /// The table of the given symbols. It is an error if they are too many for indices of 32 bits.
    pub fn from_symbols(symbols: Vec<String>) -> (table: GazetteerParserResult<Self>)
        ensures
            match table {
                Ok(made) => made.wf() && made@ == symbols@.map_values(|symbol: String| symbol@),
                Err(error) => symbols.len() > u32::MAX && error == GazetteerParserError::TooManySymbols,
            },
    {
        let mut table = GazetteerParserSymbolTable::new();
        let ghost given = symbols@.map_values(|symbol: String| symbol@);
        let mut i: usize = 0;
        while i < symbols.len()
            invariant
                i <= symbols.len(),
                given == symbols@.map_values(|symbol: String| symbol@),
                table.wf(),
                table@ == given.take(i as int),
            decreases symbols.len() - i,
        {
            if let Err(error) = table.add_symbol(symbols[i].as_str(), true) {
                return Err(error);
            }
            i = i + 1;
            assert(table@ =~= given.take(i as int));
        }
        assert(given.take(symbols.len() as int) =~= given);
        Ok(table)
    }
}

} // verus!
