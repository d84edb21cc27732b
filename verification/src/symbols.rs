//! The symbol table: every distinct symbol text gets a 16-bit identifier,
//! in the order in which the texts are first seen. The empty text is the
//! blank and has the identifier 0.

use vstd::prelude::*;
use vstd::string::StringExecFns;
use std::collections::hash_map::RandomState;
use bimap::BiHashMap;
use crate::error::{Error, ErrorKind};
use crate::parse::Symbol;

verus! {

#[verifier::external_type_specification]
#[verifier::external_body]
#[verifier::reject_recursive_types(L)]
#[verifier::reject_recursive_types(R)]
#[verifier::reject_recursive_types(LS)]
#[verifier::reject_recursive_types(RS)]
pub struct ExBiHashMap<L, R, LS, RS>(BiHashMap<L, R, LS, RS>);

/// The pairs that a two-way map of texts and identifiers holds, as a map
/// from each text to its identifier.
pub uninterp spec fn symbol_ids(m: BiHashMap<String, u16, RandomState, RandomState>) -> Map<
    Seq<char>,
    u16,
>;

/// The pairs after `(text, id)` is put into a two-way map that holds `ids`:
/// the new pair, and every old pair that shares neither its text nor its
/// identifier.
pub open spec fn inserted(ids: Map<Seq<char>, u16>, text: Seq<char>, id: u16) -> Map<
    Seq<char>,
    u16,
> {
    Map::new(
        |k: Seq<char>| k == text || (ids.dom().contains(k) && ids[k] != id),
        |k: Seq<char>|
            if k == text {
                id
            } else {
                ids[k]
            },
    )
}

/// The table without any pair.
pub open spec fn no_symbols() -> Map<Seq<char>, u16> {
    Map::empty()
}

/// `bimap::BiHashMap::new`: the new map holds no pair.
#[verifier::external_body]
fn bimap_new() -> (m: BiHashMap<String, u16, RandomState, RandomState>)
    ensures
        symbol_ids(m) == no_symbols(),
{
    BiHashMap::new()
}

/// `bimap::BiHashMap::len`: the number of pairs.
#[verifier::external_body]
fn bimap_len(m: &BiHashMap<String, u16, RandomState, RandomState>) -> (n: usize)
    ensures
        n == symbol_ids(*m).dom().len(),
{
    m.len()
}

/// `bimap::BiHashMap::get_by_left`: the identifier paired with `text`, if
/// `text` is in the map.
#[verifier::external_body]
fn bimap_get_by_left(m: &BiHashMap<String, u16, RandomState, RandomState>, text: &String) -> (id:
    Option<u16>)
    ensures
        id == if symbol_ids(*m).dom().contains(text@) {
            Some(symbol_ids(*m)[text@])
        } else {
            None
        },
{
    m.get_by_left(text).copied()
}

/// `bimap::BiHashMap::get_by_right`: a text paired with `id`, if there is
/// one.
#[verifier::external_body]
fn bimap_get_by_right(m: &BiHashMap<String, u16, RandomState, RandomState>, id: u16) -> (text:
    Option<String>)
    ensures
        match text {
            Some(t) => symbol_ids(*m).dom().contains(t@) && symbol_ids(*m)[t@] == id,
            None => forall|k: Seq<char>| symbol_ids(*m).dom().contains(k) ==> symbol_ids(*m)[k] != id,
        },
{
    m.get_by_right(&id).cloned()
}

/// `bimap::BiHashMap::insert`: puts the pair in, after removing any pair
/// with the same text and any pair with the same identifier.
#[verifier::external_body]
fn bimap_insert(m: &mut BiHashMap<String, u16, RandomState, RandomState>, text: String, id: u16)
    ensures
        symbol_ids(*final(m)) == inserted(symbol_ids(*old(m)), text@, id),
{
    m.insert(text, id);
}

/// A table is well formed when it is finite, the empty text has the
/// identifier 0, the identifiers are exactly the numbers below the number
/// of texts, and no two texts share one.
pub open spec fn table_wf(ids: Map<Seq<char>, u16>) -> bool {
    &&& ids.dom().finite()
    &&& ids.dom().contains(Seq::<char>::empty())
    &&& ids[Seq::<char>::empty()] == 0
    &&& forall|k: Seq<char>| ids.dom().contains(k) ==> ids[k] < ids.dom().len()
    &&& forall|j: Seq<char>, k: Seq<char>|
        ids.dom().contains(j) && ids.dom().contains(k) && ids[j] == ids[k] ==> j == k
}

/// The table that holds the blank only.
pub open spec fn blank_table() -> Map<Seq<char>, u16> {
    Map::<Seq<char>, u16>::empty().insert(Seq::<char>::empty(), 0u16)
}

/// Interning `text`: a text already in the table keeps its identifier; a
/// new one gets the next free identifier; `None` when the table is full.
pub open spec fn interned(ids: Map<Seq<char>, u16>, text: Seq<char>) -> Option<
    (Map<Seq<char>, u16>, u16),
> {
    if ids.dom().contains(text) {
        Some((ids, ids[text]))
    } else if ids.dom().len() > u16::MAX {
        None
    } else {
        Some((ids.insert(text, ids.dom().len() as u16), ids.dom().len() as u16))
    }
}

/// The text with the identifier `id`, if there is one.
pub open spec fn text_with_id(ids: Map<Seq<char>, u16>, id: u16) -> Option<Seq<char>> {
    if exists|k: Seq<char>| ids.dom().contains(k) && ids[k] == id {
        Some(choose|k: Seq<char>| ids.dom().contains(k) && ids[k] == id)
    } else {
        None
    }
}

/// Interning keeps a table well formed.
pub proof fn lemma_interned_wf(ids: Map<Seq<char>, u16>, text: Seq<char>)
    requires
        table_wf(ids),
        interned(ids, text) is Some,
    ensures
        table_wf(interned(ids, text).unwrap().0),
        ids.submap_of(interned(ids, text).unwrap().0),
{
    if !ids.dom().contains(text) {
        let n = ids.dom().len() as u16;
        let next = ids.insert(text, n);
        assert(next.dom() =~= ids.dom().insert(text));
    }
}

/// After a text is interned, looking the text up gives its identifier, and
/// fetching the text of that identifier gives the text back.
pub proof fn lemma_intern_round_trip(ids: Map<Seq<char>, u16>, text: Seq<char>)
    requires
        table_wf(ids),
        interned(ids, text) is Some,
    ensures
        ({
            let (next, id) = interned(ids, text)->0;
            &&& next.dom().contains(text)
            &&& next[text] == id
            &&& text_with_id(next, id) == Some(text)
        }),
{
    lemma_interned_wf(ids, text);
    let (next, id) = interned(ids, text)->0;
    assert(next.dom().contains(text) && next[text] == id);
    let found = choose|k: Seq<char>| next.dom().contains(k) && next[k] == id;
    assert(found == text);
}

/// The symbol table of a program.
pub struct Symbols(pub BiHashMap<String, u16, RandomState, RandomState>);

impl Symbols {
    /// The table as a map from each text to its identifier.
    pub open spec fn ids(self) -> Map<Seq<char>, u16> {
        symbol_ids(self.0)
    }

    pub open spec fn wf(self) -> bool {
        table_wf(self.ids())
    }

    /// A table that holds the blank only.
    pub fn new() -> (s: Symbols)
        ensures
            s.wf(),
            s.ids() == blank_table(),
    {
        let mut map = bimap_new();
        bimap_insert(&mut map, String::new(), 0);
        let s = Symbols(map);
        assert(s.ids() =~= blank_table());
        assert(blank_table().dom() =~= Set::<Seq<char>>::empty().insert(Seq::<char>::empty()));
        s
    }

    /// Interns a symbol. Fails with `TooManySymbols`, at the symbol, when
    /// the text is new and the table is full.
    pub fn insert(&mut self, symbol: &Symbol) -> (r: Result<u16, Error>)
        requires
            old(self).wf(),
        ensures
            final(self).wf(),
            match interned(old(self).ids(), symbol.symbol@) {
                Some((next, id)) => r == Ok::<u16, Error>(id) && final(self).ids() == next,
                None => {
                    &&& r is Err
                    &&& r->Err_0.kind == ErrorKind::TooManySymbols
                    &&& r->Err_0.span == Some(symbol.span)
                    &&& final(self).ids() == old(self).ids()
                },
            },
    {
        self.intern(&symbol.symbol, symbol.span)
    }

    /// Interns `text`; `span` is where an error is reported.
    pub fn intern(&mut self, text: &String, span: crate::lex::Span) -> (r: Result<u16, Error>)
        requires
            old(self).wf(),
        ensures
            final(self).wf(),
            match interned(old(self).ids(), text@) {
                Some((next, id)) => r == Ok::<u16, Error>(id) && final(self).ids() == next,
                None => {
                    &&& r is Err
                    &&& r->Err_0.kind == ErrorKind::TooManySymbols
                    &&& r->Err_0.span == Some(span)
                    &&& final(self).ids() == old(self).ids()
                },
            },
    {
        let len: usize = bimap_len(&self.0);
        match bimap_get_by_left(&self.0, text) {
            Some(id) => Ok(id),
            None => {
                if len > 65535 {
                    Err(
                        Error::new(
                            ErrorKind::TooManySymbols,
                            String::from_str("too many unique symbols in program (max is 65536)"),
                            Some(span),
                        ),
                    )
                } else {
                    let id: u16 = len as u16;
                    proof {
                        lemma_interned_wf(self.ids(), text@);
                        assert(inserted(self.ids(), text@, id) =~= self.ids().insert(text@, id));
                    }
                    bimap_insert(&mut self.0, text.clone(), id);
                    Ok(id)
                }
            },
        }
    }

    /// The identifier of `text`, if it has been interned.
    pub fn id_of(&self, text: &String) -> (id: Option<u16>)
        ensures
            id == if self.ids().dom().contains(text@) {
                Some(self.ids()[text@])
            } else {
                None
            },
    {
        bimap_get_by_left(&self.0, text)
    }

    /// The text with the identifier `id`, if there is one.
    pub fn text_of(&self, id: u16) -> (text: Option<String>)
        requires
            self.wf(),
        ensures
            match text {
                Some(t) => text_with_id(self.ids(), id) == Some(t@),
                None => text_with_id(self.ids(), id) is None,
            },
    {
        let text = bimap_get_by_right(&self.0, id);
        proof {
            if text is Some {
                let t = text->0;
                let found = choose|k: Seq<char>| self.ids().dom().contains(k) && self.ids()[k] == id;
                assert(found == t@);
            }
        }
        text
    }
}

} // verus!
