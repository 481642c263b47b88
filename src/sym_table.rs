//! Scoped symbol table: a global frame and one frame per open subcircuit body.
use vstd::prelude::*;

verus! {

/// What a name denotes.
#[derive(Debug, Clone, Copy, PartialEq, Eq, Structural)]
pub enum SymbolType {
    Node,
    Component,
    Model,
    Subcircuit,
}

/// Mathematical view of a symbol.
pub struct SpecSymbol {
    pub name: Seq<char>,
    pub kind: SymbolType,
    pub index: nat,
}

/// A declared name, its kind, and the index of what it denotes (a net, a
/// component or a subcircuit of the circuit).
#[derive(Debug)]
pub struct Symbol {
    pub name: String,
    pub symbol_type: SymbolType,
    pub index: usize,
}

impl View for Symbol {
    type V = SpecSymbol;

    open spec fn view(&self) -> SpecSymbol {
        SpecSymbol { name: self.name@, kind: self.symbol_type, index: self.index as nat }
    }
}

pub open spec fn symbol_views(v: Seq<Symbol>) -> Seq<SpecSymbol> {
    v.map_values(|s: Symbol| s@)
}

/// The index that a frame gives to `name` as a symbol of kind `kind`, if any.
pub open spec fn lookup_in(f: Seq<SpecSymbol>, name: Seq<char>, kind: SymbolType) -> Option<nat>
    decreases f.len(),
{
    if f.len() == 0 {
        None
    } else if f.last().name == name && f.last().kind == kind {
        Some(f.last().index)
    } else {
        lookup_in(f.drop_last(), name, kind)
    }
}

/// Whether a frame declares `name`, as a symbol of any kind.
pub open spec fn declared_in(f: Seq<SpecSymbol>, name: Seq<char>) -> bool
    decreases f.len(),
{
    if f.len() == 0 {
        false
    } else if f.last().name == name {
        true
    } else {
        declared_in(f.drop_last(), name)
    }
}

/// Resolution from the innermost frame: the innermost frame, then the global one.
pub open spec fn resolve_in(frames: Seq<Seq<SpecSymbol>>, name: Seq<char>, kind: SymbolType) -> Option<nat> {
    match lookup_in(frames.last(), name, kind) {
        Some(i) => Some(i),
        None => lookup_in(frames[0], name, kind),
    }
}

/// The frames are vectors searched from the end rather than hash maps: with
/// `String` keys vstd's map specifications prove nothing about lookups, while a
/// vector of symbols states exactly which names a frame declares.
pub struct SymTable {
    frames: Vec<Vec<Symbol>>,
}

impl View for SymTable {
    type V = Seq<Seq<SpecSymbol>>;

    closed spec fn view(&self) -> Seq<Seq<SpecSymbol>> {
        self.frames@.map_values(|f: Vec<Symbol>| symbol_views(f@))
    }
}

impl SymTable {
    /// At least the global frame is present.
    pub open spec fn wf(&self) -> bool {
        self@.len() >= 1
    }

    pub fn new() -> (r: Self)
        ensures
            r@ == seq![Seq::<SpecSymbol>::empty()],
    {
        let mut frames: Vec<Vec<Symbol>> = Vec::new();
        frames.push(Vec::new());
        let r = SymTable { frames };
        assert(r@ =~~= seq![Seq::<SpecSymbol>::empty()]);
        r
    }

    /// The number of frames (1 when no subcircuit body is open).
    pub fn depth(&self) -> (r: usize)
        ensures
            r == self@.len(),
    {
        self.frames.len()
    }

    fn lookup_frame(f: &Vec<Symbol>, name: &String, kind: SymbolType) -> (r: Option<usize>)
        ensures
            r matches Some(i) ==> lookup_in(symbol_views(f@), name@, kind) == Some(i as nat),
            r is None ==> lookup_in(symbol_views(f@), name@, kind) is None,
    {
        let mut k = f.len();
        assert(symbol_views(f@).take(k as int) =~= symbol_views(f@));
        while k > 0
            invariant
                k <= f@.len(),
                lookup_in(symbol_views(f@), name@, kind) == lookup_in(symbol_views(f@).take(k as int), name@, kind),
            decreases k,
        {
            let ghost fv = symbol_views(f@).take(k as int);
            assert(fv.drop_last() =~= symbol_views(f@).take(k as int - 1));
            if f[k - 1].name == *name && f[k - 1].symbol_type == kind {
                return Some(f[k - 1].index);
            }
            k -= 1;
        }
        None
    }

    /// The index of `name` as a `kind` in the frame at depth `d` (0 is global).
    pub fn lookup_at(&self, d: usize, name: &String, kind: SymbolType) -> (r: Option<usize>)
        requires
            d < self@.len(),
        ensures
            r matches Some(i) ==> lookup_in(self@[d as int], name@, kind) == Some(i as nat),
            r is None ==> lookup_in(self@[d as int], name@, kind) is None,
    {
        SymTable::lookup_frame(&self.frames[d], name, kind)
    }

    /// Resolves `name` as a `kind`: the innermost frame first, then the global one.
    pub fn resolve(&self, name: &String, kind: SymbolType) -> (r: Option<usize>)
        requires
            self.wf(),
        ensures
            r matches Some(i) ==> resolve_in(self@, name@, kind) == Some(i as nat),
            r is None ==> resolve_in(self@, name@, kind) is None,
    {
        let top = self.frames.len() - 1;
        match SymTable::lookup_frame(&self.frames[top], name, kind) {
            Some(i) => Some(i),
            None => SymTable::lookup_frame(&self.frames[0], name, kind),
        }
    }

    fn declared_frame(f: &Vec<Symbol>, name: &String) -> (r: bool)
        ensures
            r == declared_in(symbol_views(f@), name@),
    {
        let mut k = f.len();
        assert(symbol_views(f@).take(k as int) =~= symbol_views(f@));
        while k > 0
            invariant
                k <= f@.len(),
                declared_in(symbol_views(f@), name@) == declared_in(symbol_views(f@).take(k as int), name@),
            decreases k,
        {
            let ghost fv = symbol_views(f@).take(k as int);
            assert(fv.drop_last() =~= symbol_views(f@).take(k as int - 1));
            if f[k - 1].name == *name {
                return true;
            }
            k -= 1;
        }
        false
    }

    /// Whether the innermost frame declares `name`, as a symbol of any kind.
    pub fn declares(&self, name: &String) -> (r: bool)
        requires
            self.wf(),
        ensures
            r == declared_in(self@.last(), name@),
    {
        SymTable::declared_frame(&self.frames[self.frames.len() - 1], name)
    }

    /// Declares a symbol in the innermost frame. Returns false, and changes
    /// nothing, when that frame already declares the name, whatever its kind.
    pub fn insert(&mut self, symbol: Symbol) -> (r: bool)
        requires
            old(self).wf(),
        ensures
            final(self).wf(),
            r == !declared_in(old(self)@.last(), symbol@.name),
            r ==> final(self)@ == old(self)@.update(old(self)@.len() - 1, old(self)@.last().push(symbol@)),
            !r ==> final(self)@ == old(self)@,
    {
        let top = self.frames.len() - 1;
        if SymTable::declared_frame(&self.frames[top], &symbol.name) {
            return false;
        }
        let ghost sv = symbol@;
        let mut f = self.frames.pop().unwrap();
        let ghost fv = symbol_views(f@);
        f.push(symbol);
        assert(symbol_views(f@) =~= fv.push(sv));
        self.frames.push(f);
        assert(self@ =~= old(self)@.update(old(self)@.len() - 1, old(self)@.last().push(sv)));
        true
    }

    /// Opens an empty innermost frame.
    pub fn open_scope(&mut self)
        ensures
            final(self)@ == old(self)@.push(Seq::<SpecSymbol>::empty()),
    {
        self.frames.push(Vec::new());
        assert(self@ =~~= old(self)@.push(Seq::<SpecSymbol>::empty()));
    }

    /// Drops the innermost frame; the global frame is never dropped.
    pub fn close_scope(&mut self) -> (r: bool)
        ensures
            r == (old(self)@.len() > 1),
            r ==> final(self)@ == old(self)@.drop_last(),
            !r ==> final(self)@ == old(self)@,
    {
        if self.frames.len() > 1 {
            let _ = self.frames.pop();
            assert(self@ =~= old(self)@.drop_last());
            true
        } else {
            false
        }
    }
}

} // verus!
