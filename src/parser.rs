//! The card parser: dispatches each card by its leading character, builds the
//! circuit, and resolves names through the scoped symbol table.
use vstd::prelude::*;
use vstd::string::*;
use crate::circuit::{
    Circuit, Component, Model, Node, SimulationType, SpecCircuit, SpecComponent, SpecModel, SpecSimParams,
    SpecSubcircuit, Subcircuit, decimal_view, empty_circuit,
};
use crate::error::{Error, ErrorHandler, ErrorType, SpecError, push_char};
use crate::lexer::{chars_of, lower, lower_text};
use crate::literal::{Decimal, SpecDecimal, literal_at, parse_literal, syntax_error, token_at};
use crate::sym_table::{SpecSymbol, Symbol, SymTable, SymbolType, declared_in, lookup_in, resolve_in};
use crate::token::{Card, SpecToken, Token, TokenType, card_views, token_views};

verus! {

// ----- the parse, stated card by card -----

/// A reference to a subcircuit by name, waiting for the end of its scope.
pub struct SpecRef {
    pub name: Seq<char>,
    pub line: nat,
    pub column: nat,
}

/// Everything the parser has built so far.
pub struct PState {
    pub circuit: SpecCircuit,
    /// The symbol frames: global first, then one per open subcircuit body.
    pub frames: Seq<Seq<SpecSymbol>>,
    /// The unresolved references made in each frame.
    pub pending: Seq<Seq<SpecRef>>,
    /// The indices of the open subcircuit definitions, outermost first.
    pub open: Seq<usize>,
    pub errors: Seq<SpecError>,
}

pub open spec fn initial_state() -> PState {
    PState {
        circuit: empty_circuit(),
        frames: seq![seq![]],
        pending: seq![seq![]],
        open: seq![],
        errors: seq![],
    }
}

pub open spec fn add_error(st: PState, e: SpecError) -> PState {
    PState { errors: st.errors.push(e), ..st }
}

pub open spec fn semantic_error(message: Seq<char>, t: SpecToken) -> SpecError {
    SpecError { kind: ErrorType::Semantic, message, line: t.line, column: t.column }
}

/// Adds a symbol to the innermost frame.
pub open spec fn declare(st: PState, s: SpecSymbol) -> PState {
    PState { frames: st.frames.update(st.frames.len() - 1, st.frames.last().push(s)), ..st }
}

/// The subcircuit definition whose body is open, if any.
pub open spec fn owner(st: PState) -> Option<usize> {
    if st.open.len() > 0 {
        Some(st.open.last())
    } else {
        None
    }
}

pub open spec fn is_node_token(t: SpecToken) -> bool {
    t.kind == TokenType::Identifier || t.kind == TokenType::Number
}

/// The reserved node names: `0` and `gnd` for ground, `vdd` for the supply
/// (letters compared without case).
pub open spec fn reserved_node(name: Seq<char>) -> Option<Node> {
    if name == "0"@ || lower(name) == "gnd"@ {
        Some(Node::Ground)
    } else if lower(name) == "vdd"@ {
        Some(Node::Vdd)
    } else {
        None
    }
}

/// A terminal name resolved to a node; a name seen for the first time becomes a
/// new net of the innermost frame.
pub open spec fn node_ref(st: PState, name: Seq<char>) -> (PState, Node) {
    match reserved_node(name) {
        Some(n) => (st, n),
        None => match resolve_in(st.frames, name, SymbolType::Node) {
            Some(i) => (st, Node::Net(i as usize)),
            None => {
                let id = st.circuit.nodes.len();
                let st1 = PState {
                    circuit: SpecCircuit { nodes: st.circuit.nodes.push(name), ..st.circuit },
                    ..st
                };
                (declare(st1, SpecSymbol { name, kind: SymbolType::Node, index: id }), Node::Net(id as usize))
            },
        },
    }
}

/// The terminals at positions `from..to` of a card, resolved left to right.
pub open spec fn node_refs(st: PState, c: Seq<SpecToken>, from: nat, to: nat) -> (PState, Seq<Node>)
    decreases to,
{
    if to <= from {
        (st, seq![])
    } else {
        let (st1, ns) = node_refs(st, c, from, (to - 1) as nat);
        let (st2, n) = node_ref(st1, c[to - 1].lexeme);
        (st2, ns.push(n))
    }
}

/// A port name declared as a node of the innermost frame. A name that the
/// frame already declares is a duplicate definition, and gives no port.
pub open spec fn port_decl(st: PState, t: SpecToken) -> (PState, Option<Node>) {
    match reserved_node(t.lexeme) {
        Some(n) => (st, Some(n)),
        None => if declared_in(st.frames.last(), t.lexeme) {
            (add_error(st, semantic_error("Duplicate definition: "@ + t.lexeme, t)), None)
        } else {
            let id = st.circuit.nodes.len();
            let st1 = PState {
                circuit: SpecCircuit { nodes: st.circuit.nodes.push(t.lexeme), ..st.circuit },
                ..st
            };
            (declare(st1, SpecSymbol { name: t.lexeme, kind: SymbolType::Node, index: id }), Some(Node::Net(id as usize)))
        },
    }
}

/// The ports at positions `from..to` of a card, declared left to right.
pub open spec fn port_decls(st: PState, c: Seq<SpecToken>, from: nat, to: nat) -> (PState, Seq<Node>)
    decreases to,
{
    if to <= from {
        (st, seq![])
    } else {
        let (st1, ns) = port_decls(st, c, from, (to - 1) as nat);
        let (st2, n) = port_decl(st1, c[to - 1]);
        match n {
            Some(x) => (st2, ns.push(x)),
            None => (st2, ns),
        }
    }
}

/// A terminal name that cannot become a node of a card whose component is
/// `comp`: it is not reserved, names no node in reach, and the innermost frame
/// already declares it (as another kind) or it is the component's own name.
pub open spec fn clashes(st: PState, name: Seq<char>, comp: Seq<char>) -> bool {
    &&& reserved_node(name) is None
    &&& resolve_in(st.frames, name, SymbolType::Node) is None
    &&& (declared_in(st.frames.last(), name) || name == comp)
}

/// The first position in `from..to` whose terminal clashes, or `to`.
pub open spec fn first_clash(st: PState, c: Seq<SpecToken>, from: nat, to: nat, comp: Seq<char>) -> nat
    decreases to - from,
{
    if from >= to {
        to
    } else if clashes(st, c[from as int].lexeme, comp) {
        from
    } else {
        first_clash(st, c, from + 1, to, comp)
    }
}

/// The first position in `from..to` that does not hold a node name, or `to`.
pub open spec fn first_non_node(c: Seq<SpecToken>, from: nat, to: nat) -> nat
    decreases to - from,
{
    if from >= to {
        to
    } else if !is_node_token(c[from as int]) {
        from
    } else {
        first_non_node(c, from + 1, to)
    }
}

/// The leading characters of two-terminal devices: `R C L V I`.
pub open spec fn is_device_lead(lead: char) -> bool {
    lead == 'R' || lead == 'C' || lead == 'L' || lead == 'V' || lead == 'I'
}

/// The device that a leading character selects, with its value.
pub open spec fn device_model(lead: char, v: SpecDecimal) -> Option<SpecModel> {
    let l = lead;
    if l == 'R' {
        Some(SpecModel::Resistor(v))
    } else if l == 'C' {
        Some(SpecModel::Capacitor(v))
    } else if l == 'L' {
        Some(SpecModel::Inductor(v))
    } else if l == 'V' {
        Some(SpecModel::VoltageSource(v))
    } else if l == 'I' {
        Some(SpecModel::CurrentSource(v))
    } else {
        None
    }
}

/// Declares the component, resolves its terminals at `from..to`, and records
/// it.
pub open spec fn add_component(
    st: PState,
    c: Seq<SpecToken>,
    from: nat,
    to: nat,
    model: SpecModel,
    callee: Seq<char>,
) -> PState {
    let name = c[0].lexeme;
    let idx = st.circuit.components.len();
    let st1 = declare(st, SpecSymbol { name, kind: SymbolType::Component, index: idx });
    let (st2, ns) = node_refs(st1, c, from, to);
    let comp = SpecComponent { name, terminals: ns, model, callee, owner: owner(st) };
    PState { circuit: SpecCircuit { components: st2.circuit.components.push(comp), ..st2.circuit }, ..st2 }
}

/// The checks on names that an instance card passes before it is recorded: its
/// name is new in the innermost frame, and no terminal at `from..to` clashes.
/// Returns the error of the first check that fails.
pub open spec fn instance_name_error(st: PState, c: Seq<SpecToken>, from: nat, to: nat) -> Option<SpecError> {
    let name = c[0].lexeme;
    if declared_in(st.frames.last(), name) {
        Some(semantic_error("Duplicate definition: "@ + name, c[0]))
    } else if first_clash(st, c, from, to, name) < to {
        let b = first_clash(st, c, from, to, name);
        Some(semantic_error("Duplicate definition: "@ + c[b as int].lexeme, c[b as int]))
    } else {
        None
    }
}

/// A two-terminal device card: `name node node value`.
pub open spec fn device_card(st: PState, c: Seq<SpecToken>) -> PState {
    let bad = first_non_node(c, 1, if c.len() < 3 { c.len() } else { 3 });
    if c.len() < 3 || bad < 3 {
        add_error(st, syntax_error("Expected node"@, token_at(c, bad as int)))
    } else {
        let lit = literal_at(c, 3);
        let st1 = PState { errors: st.errors + lit.errors, ..st };
        if lit.next < c.len() {
            add_error(st1, syntax_error("Unexpected token"@, c[lit.next as int]))
        } else {
            match instance_name_error(st1, c, 1, 3) {
                Some(e) => add_error(st1, e),
                None => add_component(st1, c, 1, 3, device_model(lead_char(c[0]), lit.value).unwrap(), seq![]),
            }
        }
    }
}

/// A subcircuit invocation card: `name node... subcircuit`.
pub open spec fn call_card(st: PState, c: Seq<SpecToken>) -> PState {
    let n = c.len();
    if n < 2 || c[n - 1].kind != TokenType::Identifier {
        add_error(st, syntax_error("Expected subcircuit name"@, c[n - 1]))
    } else if first_non_node(c, 1, (n - 1) as nat) < n - 1 {
        add_error(st, syntax_error("Expected node"@, c[first_non_node(c, 1, (n - 1) as nat) as int]))
    } else {
        match instance_name_error(st, c, 1, (n - 1) as nat) {
            Some(e) => add_error(st, e),
            None => {
                let st2 = add_component(st, c, 1, (n - 1) as nat, SpecModel::Subcircuit, c[n - 1].lexeme);
                let r = SpecRef { name: c[n - 1].lexeme, line: c[n - 1].line, column: c[n - 1].column };
                PState { pending: st2.pending.update(st2.pending.len() - 1, st2.pending.last().push(r)), ..st2 }
            },
        }
    }
}

/// `.subckt name port...`: declares the subcircuit and opens its body.
pub open spec fn subckt_card(st: PState, c: Seq<SpecToken>) -> PState {
    let n = c.len();
    if n < 2 || c[1].kind != TokenType::Identifier {
        add_error(st, syntax_error("Expected subcircuit name"@, token_at(c, 1)))
    } else if first_non_node(c, 2, n) < n {
        add_error(st, syntax_error("Expected node"@, c[first_non_node(c, 2, n) as int]))
    } else {
        let name = c[1].lexeme;
        let idx = st.circuit.subcircuits.len();
        let st1 = if declared_in(st.frames.last(), name) {
            add_error(st, semantic_error("Duplicate definition: "@ + name, c[1]))
        } else {
            declare(st, SpecSymbol { name, kind: SymbolType::Subcircuit, index: idx })
        };
        let st2 = PState {
            frames: st1.frames.push(seq![]),
            pending: st1.pending.push(seq![]),
            open: st1.open.push(idx as usize),
            ..st1
        };
        let (st3, ports) = port_decls(st2, c, 2, n);
        let def = SpecSubcircuit { name, ports, line: c[0].line, column: c[0].column };
        PState { circuit: SpecCircuit { subcircuits: st3.circuit.subcircuits.push(def), ..st3.circuit }, ..st3 }
    }
}

/// The references that a frame does not resolve as subcircuits, in order.
pub open spec fn unresolved(refs: Seq<SpecRef>, frame: Seq<SpecSymbol>) -> Seq<SpecRef>
    decreases refs.len(),
{
    if refs.len() == 0 {
        seq![]
    } else {
        let rest = unresolved(refs.drop_last(), frame);
        if lookup_in(frame, refs.last().name, SymbolType::Subcircuit) is Some {
            rest
        } else {
            rest.push(refs.last())
        }
    }
}

/// Closes the innermost subcircuit body: its unresolved references pass to
/// the enclosing frame.
pub open spec fn close_scope(st: PState) -> PState {
    let left = unresolved(st.pending.last(), st.frames.last());
    let pending = st.pending.drop_last();
    PState {
        frames: st.frames.drop_last(),
        pending: pending.update(pending.len() - 1, pending.last() + left),
        open: st.open.drop_last(),
        ..st
    }
}

/// `.ends`: closes the innermost open subcircuit body.
pub open spec fn ends_card(st: PState, c: Seq<SpecToken>) -> PState {
    if c.len() > 1 {
        add_error(st, syntax_error("Unexpected token"@, c[1]))
    } else if st.open.len() == 0 {
        add_error(st, syntax_error("Unmatched .ends"@, c[0]))
    } else {
        close_scope(st)
    }
}

/// Sets a parameter that may be set once; a different second value conflicts.
pub open spec fn set_param(slot: Option<SpecDecimal>, v: SpecDecimal) -> (Option<SpecDecimal>, bool) {
    match slot {
        None => (Some(v), false),
        Some(w) => (Some(w), w != v),
    }
}

pub open spec fn conflict_errors(conflicts: Seq<bool>, t: SpecToken) -> Seq<SpecError>
    decreases conflicts.len(),
{
    if conflicts.len() == 0 {
        seq![]
    } else {
        let rest = conflict_errors(conflicts.drop_last(), t);
        if conflicts.last() {
            rest.push(semantic_error("Conflicting simulation parameter"@, t))
        } else {
            rest
        }
    }
}

pub open spec fn directive_type(k: TokenType) -> SimulationType {
    if k == TokenType::Tran {
        SimulationType::TRAN
    } else if k == TokenType::Ac {
        SimulationType::AC
    } else if k == TokenType::Dc {
        SimulationType::DC
    } else {
        SimulationType::OP
    }
}

/// `.op`: the analysis alone; `.dc sweep...`: the analysis (its sweep operands
/// have no field in the circuit and are passed over); `.tran step stop`,
/// `.ac start stop`: the analysis and two values.
pub open spec fn analysis_card(st: PState, c: Seq<SpecToken>) -> PState {
    let kind = c[0].kind;
    let ty = directive_type(kind);
    let two = kind == TokenType::Tran || kind == TokenType::Ac;
    let lit1 = literal_at(c, 1);
    let lit2 = literal_at(c, lit1.next);
    let st1 = if two { PState { errors: st.errors + lit1.errors + lit2.errors, ..st } } else { st };
    let end: nat = if two {
        lit2.next
    } else if kind == TokenType::Dc {
        c.len()
    } else {
        1
    };
    let sim = st1.circuit.sim_params;
    if end < c.len() {
        add_error(st1, syntax_error("Unexpected token"@, c[end as int]))
    } else if sim.sim_type is Some && sim.sim_type != Some(ty) {
        add_error(st1, semantic_error("Conflicting simulation directive"@, c[0]))
    } else {
        let sim1 = SpecSimParams { sim_type: Some(ty), ..sim };
        let (sim2, c1, c2) = if kind == TokenType::Tran {
            let (a, x) = set_param(sim.time_step, lit1.value);
            let (b, y) = set_param(sim.stop_time, lit2.value);
            (SpecSimParams { time_step: a, stop_time: b, ..sim1 }, x, y)
        } else if kind == TokenType::Ac {
            let (a, x) = set_param(sim.start_freq, lit1.value);
            let (b, y) = set_param(sim.stop_freq, lit2.value);
            (SpecSimParams { start_freq: a, stop_freq: b, ..sim1 }, x, y)
        } else {
            (sim1, false, false)
        };
        PState {
            circuit: SpecCircuit { sim_params: sim2, ..st1.circuit },
            errors: st1.errors + conflict_errors(seq![c1, c2], c[0]),
            ..st1
        }
    }
}

/// The leading character of a token's text (`'\0'` when it is empty).
pub open spec fn lead_char(t: SpecToken) -> char {
    if t.lexeme.len() > 0 {
        t.lexeme[0]
    } else {
        '\0'
    }
}

/// One card: dispatched by its directive kind, else by the leading character of
/// its first token.
pub open spec fn card_step(st: PState, c: Seq<SpecToken>) -> PState {
    let k = c[0].kind;
    if k == TokenType::Ends {
        ends_card(st, c)
    } else if k == TokenType::Subckt {
        subckt_card(st, c)
    } else if k == TokenType::Tran || k == TokenType::Ac || k == TokenType::Dc || k == TokenType::Op {
        analysis_card(st, c)
    } else if k == TokenType::Plot || k == TokenType::Wave {
        st
    } else {
        let lead = lead_char(c[0]);
        if is_device_lead(lead) {
            device_card(st, c)
        } else if lead == 'X' {
            call_card(st, c)
        } else {
            add_error(st, syntax_error("Unknown leading character: "@.push(lead), c[0]))
        }
    }
}

pub open spec fn undefined_errors(refs: Seq<SpecRef>) -> Seq<SpecError>
    decreases refs.len(),
{
    if refs.len() == 0 {
        seq![]
    } else {
        let r = refs.last();
        undefined_errors(refs.drop_last()).push(
            SpecError { kind: ErrorType::Semantic, message: "Undefined symbol: "@ + r.name, line: r.line, column: r.column },
        )
    }
}

/// End of input: each subcircuit body still open is an error and is closed,
/// innermost first; then each reference that the global frame does not resolve
/// is an error. (Past `open.len() > 0`, the conditions of the first branch hold
/// in every state that `state_wf` admits and that the parser reaches.)
pub open spec fn finish(st: PState) -> PState
    decreases st.open.len(),
{
    if st.open.len() > 0 && st.frames.len() > 1 && st.pending.len() > 1 && st.open.last() < st.circuit.subcircuits.len() {
        let def = st.circuit.subcircuits[st.open.last() as int];
        let e = SpecError { kind: ErrorType::Syntax, message: "Unclosed subcircuit: "@ + def.name, line: def.line, column: def.column };
        finish(close_scope(PState { errors: st.errors.push(e), ..st }))
    } else {
        let left = unresolved(st.pending[0], st.frames[0]);
        PState { errors: st.errors + undefined_errors(left), ..st }
    }
}

/// Parses cards `i..` from state `st`; stops at `.end` or the end-of-file card.
pub open spec fn parse_from(st: PState, cards: Seq<Seq<SpecToken>>, i: nat) -> PState
    decreases cards.len() - i,
{
    if i >= cards.len() {
        finish(st)
    } else {
        let c = cards[i as int];
        if c.len() == 0 {
            parse_from(st, cards, i + 1)
        } else if c[0].kind == TokenType::Eof || c[0].kind == TokenType::End {
            finish(st)
        } else {
            parse_from(card_step(st, c), cards, i + 1)
        }
    }
}

/// The circuit and the errors that parsing a sequence of cards gives.
pub open spec fn parse_cards(cards: Seq<Seq<SpecToken>>) -> PState {
    parse_from(initial_state(), cards, 0)
}

} // verus!

verus! {

// ----- the executable parser -----

/// A reference to a subcircuit by name, with the position of the name.
#[derive(Debug)]
pub struct Reference {
    pub name: String,
    pub line: usize,
    pub column: usize,
}

impl View for Reference {
    type V = SpecRef;

    open spec fn view(&self) -> SpecRef {
        SpecRef { name: self.name@, line: self.line as nat, column: self.column as nat }
    }
}

pub open spec fn ref_views(v: Seq<Reference>) -> Seq<SpecRef> {
    v.map_values(|r: Reference| r@)
}

/// The circuit under construction and the symbol state.
struct Builder {
    circuit: Circuit,
    table: SymTable,
    pending: Vec<Vec<Reference>>,
    open: Vec<usize>,
    errors: ErrorHandler,
}

impl View for Builder {
    type V = PState;

    closed spec fn view(&self) -> PState {
        PState {
            circuit: self.circuit@,
            frames: self.table@,
            pending: self.pending@.map_values(|v: Vec<Reference>| ref_views(v@)),
            open: self.open@,
            errors: self.errors@,
        }
    }
}

/// The invariant of the parse state: one pending list per frame, one open
/// subcircuit per frame past the global one.
pub open spec fn state_wf(st: PState) -> bool {
    &&& st.frames.len() >= 1
    &&& st.pending.len() == st.frames.len()
    &&& st.open.len() + 1 == st.frames.len()
}

fn lower_string(s: &String) -> (r: String)
    ensures
        r@ == lower(s@),
{
    let v = chars_of(s);
    let r = lower_text(&v, 0, v.len());
    assert(v@.subrange(0, v@.len() as int) =~= v@);
    r
}

fn reserved_node_exec(name: &String) -> (r: Option<Node>)
    ensures
        r == reserved_node(name@),
{
    let l = lower_string(name);
    if *name == String::from_str("0") || l == String::from_str("gnd") {
        Some(Node::Ground)
    } else if l == String::from_str("vdd") {
        Some(Node::Vdd)
    } else {
        None
    }
}

fn is_node_token_exec(t: &Token) -> (r: bool)
    ensures
        r == is_node_token(t@),
{
    t.token_type == TokenType::Identifier || t.token_type == TokenType::Number
}

fn first_non_node_exec(c: &Vec<Token>, from: usize, to: usize) -> (r: usize)
    requires
        to <= c@.len(),
    ensures
        r == first_non_node(token_views(c@), from as nat, to as nat),
        from <= to ==> from <= r <= to,
{
    let mut k = from;
    while k < to
        invariant
            to <= c@.len(),
            from <= k || to <= from,
            k <= to || to <= from,
            from >= to ==> k == from,
            first_non_node(token_views(c@), k as nat, to as nat) == first_non_node(
                token_views(c@),
                from as nat,
                to as nat,
            ),
        decreases to - k,
    {
        if !is_node_token_exec(&c[k]) {
            return k;
        }
        k += 1;
    }
    to
}

impl Builder {
    closed spec fn wf(&self) -> bool {
        &&& self.table.wf()
        &&& state_wf(self@)
    }

    fn new() -> (r: Self)
        ensures
            r.wf(),
            r@ == initial_state(),
    {
        let mut pending: Vec<Vec<Reference>> = Vec::new();
        pending.push(Vec::new());
        let r = Builder {
            circuit: Circuit::new(),
            table: SymTable::new(),
            pending,
            open: Vec::new(),
            errors: ErrorHandler::new(),
        };
        assert(r@.pending =~~= initial_state().pending);
        assert(r@.open =~= initial_state().open);
        r
    }

    fn add_err(&mut self, e: Error)
        requires
            old(self).wf(),
        ensures
            final(self).wf(),
            final(self)@ == add_error(old(self)@, e@),
    {
        self.errors.add_error(e);
    }

    /// Declares a symbol known to be new in the innermost frame.
    fn declare(&mut self, sym: Symbol)
        requires
            old(self).wf(),
            !declared_in(old(self)@.frames.last(), sym@.name),
        ensures
            final(self).wf(),
            final(self)@ == declare(old(self)@, sym@),
    {
        let ghost sv = sym@;
        let _ = self.table.insert(sym);
        assert(self@ =~= declare(old(self)@, sv));
    }

    fn new_net(&mut self, name: &String) -> (id: usize)
        requires
            old(self).wf(),
            !declared_in(old(self)@.frames.last(), name@),
        ensures
            final(self).wf(),
            id == old(self)@.circuit.nodes.len(),
            final(self)@ == declare(
                PState {
                    circuit: SpecCircuit { nodes: old(self)@.circuit.nodes.push(name@), ..old(self)@.circuit },
                    ..old(self)@
                },
                SpecSymbol { name: name@, kind: SymbolType::Node, index: id as nat },
            ),
    {
        let id = self.circuit.nodes.len();
        self.circuit.nodes.push(name.clone());
        assert(self@.circuit.nodes =~= old(self)@.circuit.nodes.push(name@));
        self.declare(Symbol { name: name.clone(), symbol_type: SymbolType::Node, index: id });
        id
    }

    fn node_ref(&mut self, name: &String) -> (n: Node)
        requires
            old(self).wf(),
            node_ok(old(self)@, name@),
        ensures
            final(self).wf(),
            (final(self)@, n) == node_ref(old(self)@, name@),
    {
        match reserved_node_exec(name) {
            Some(n) => n,
            None => match self.table.resolve(name, SymbolType::Node) {
                Some(i) => Node::Net(i),
                None => {
                    let id = self.new_net(name);
                    Node::Net(id)
                },
            },
        }
    }

    fn node_refs(&mut self, c: &Vec<Token>, from: usize, to: usize) -> (r: Vec<Node>)
        requires
            old(self).wf(),
            from <= to <= c@.len(),
            forall|k: int| from <= k < to ==> node_ok(old(self)@, #[trigger] c@[k]@.lexeme),
        ensures
            final(self).wf(),
            (final(self)@, r@) == node_refs(old(self)@, token_views(c@), from as nat, to as nat),
    {
        let mut r: Vec<Node> = Vec::new();
        let mut k = from;
        assert(node_refs(old(self)@, token_views(c@), from as nat, from as nat) == (old(self)@, r@));
        while k < to
            invariant
                self.wf(),
                from <= k <= to <= c@.len(),
                (self@, r@) == node_refs(old(self)@, token_views(c@), from as nat, k as nat),
                forall|m: int| k <= m < to ==> node_ok(self@, #[trigger] c@[m]@.lexeme),
            decreases to - k,
        {
            let ghost before = self@;
            assert(node_ok(self@, c@[k as int]@.lexeme));
            let n = self.node_ref(&c[k].content);
            proof {
                assert forall|m: int| k + 1 <= m < to implies node_ok(self@, #[trigger] c@[m]@.lexeme) by {
                    lemma_node_ok_kept(before, c@[k as int]@.lexeme, c@[m]@.lexeme);
                }
            }
            r.push(n);
            k += 1;
        }
        r
    }

    fn port_decl(&mut self, t: &Token) -> (n: Option<Node>)
        requires
            old(self).wf(),
        ensures
            final(self).wf(),
            (final(self)@, n) == port_decl(old(self)@, t@),
    {
        match reserved_node_exec(&t.content) {
            Some(n) => Some(n),
            None => {
                if self.table.declares(&t.content) {
                    self.add_err(token_error(t, ErrorType::Semantic, "Duplicate definition: ", &t.content));
                    None
                } else {
                    let id = self.new_net(&t.content);
                    Some(Node::Net(id))
                }
            },
        }
    }

    fn port_decls(&mut self, c: &Vec<Token>, from: usize, to: usize) -> (r: Vec<Node>)
        requires
            old(self).wf(),
            from <= to <= c@.len(),
        ensures
            final(self).wf(),
            (final(self)@, r@) == port_decls(old(self)@, token_views(c@), from as nat, to as nat),
    {
        let mut r: Vec<Node> = Vec::new();
        let mut k = from;
        assert(port_decls(old(self)@, token_views(c@), from as nat, from as nat) == (old(self)@, r@));
        while k < to
            invariant
                self.wf(),
                from <= k <= to <= c@.len(),
                (self@, r@) == port_decls(old(self)@, token_views(c@), from as nat, k as nat),
            decreases to - k,
        {
            match self.port_decl(&c[k]) {
                Some(n) => r.push(n),
                None => {},
            }
            k += 1;
        }
        r
    }
}

/// Resolving terminals declares nodes only: the other kinds of symbol in the
/// innermost frame, and the rest of the state, stay as they were.
/// A terminal name that can be resolved to a node: reserved, a node in reach,
/// or a name that the innermost frame does not declare yet.
pub open spec fn node_ok(st: PState, name: Seq<char>) -> bool {
    reserved_node(name) is Some || resolve_in(st.frames, name, SymbolType::Node) is Some || !declared_in(
        st.frames.last(),
        name,
    )
}

/// Resolving a terminal keeps every other name resolvable.
proof fn lemma_node_ok_kept(st: PState, x: Seq<char>, y: Seq<char>)
    requires
        state_wf(st),
        node_ok(st, y),
    ensures
        state_wf(node_ref(st, x).0),
        node_ok(node_ref(st, x).0, y),
{
    let r = node_ref(st, x).0;
    if reserved_node(x) is None && resolve_in(st.frames, x, SymbolType::Node) is None {
        let top = st.frames.last();
        let top2 = r.frames.last();
        assert(top2.drop_last() =~= top);
        if st.frames.len() > 1 {
            assert(r.frames[0] == st.frames[0]);
        }
    }
}

proof fn lemma_first_clash_none(st: PState, c: Seq<SpecToken>, from: nat, to: nat, comp: Seq<char>)
    requires
        from <= to,
        first_clash(st, c, from, to, comp) >= to,
    ensures
        forall|k: int| from <= k < to ==> !clashes(st, #[trigger] c[k].lexeme, comp),
    decreases to - from,
{
    if from < to {
        lemma_first_clash_none(st, c, from + 1, to, comp);
    }
}

/// Once a card's names pass `instance_name_error`, declaring its component
/// leaves every terminal resolvable.
proof fn lemma_terminals_ok(st: PState, c: Seq<SpecToken>, from: nat, to: nat)
    requires
        state_wf(st),
        c.len() > 0,
        from <= to,
        instance_name_error(st, c, from, to) is None,
    ensures
        forall|k: int|
            from <= k < to ==> node_ok(
                declare(
                    st,
                    SpecSymbol { name: c[0].lexeme, kind: SymbolType::Component, index: st.circuit.components.len() },
                ),
                #[trigger] c[k].lexeme,
            ),
{
    let comp = c[0].lexeme;
    let sym = SpecSymbol { name: comp, kind: SymbolType::Component, index: st.circuit.components.len() };
    let st1 = declare(st, sym);
    lemma_first_clash_none(st, c, from, to, comp);
    assert(st1.frames.last().drop_last() =~= st.frames.last());
    if st.frames.len() > 1 {
        assert(st1.frames[0] == st.frames[0]);
    }
    assert forall|k: int| from <= k < to implies node_ok(st1, #[trigger] c[k].lexeme) by {
        let y = c[k].lexeme;
        assert(!clashes(st, y, comp));
        assert(lookup_in(st1.frames.last(), y, SymbolType::Node) == lookup_in(st.frames.last(), y, SymbolType::Node));
    }
}

pub(crate) fn token_error(t: &Token, kind: ErrorType, prefix: &str, name: &String) -> (r: Error)
    ensures
        r@ == (SpecError { kind, message: prefix@ + name@, line: t.line as nat, column: t.column as nat }),
{
    let mut msg = String::from_str(prefix);
    msg.append(name.as_str());
    Error::new(kind, msg, t.line, t.column)
}

fn is_device_lead_exec(lead: char) -> (r: bool)
    ensures
        r == is_device_lead(lead),
{
    lead == 'R' || lead == 'C' || lead == 'L' || lead == 'V' || lead == 'I'
}

fn device_model_exec(lead: char, v: Decimal) -> (r: Model)
    requires
        is_device_lead(lead),
    ensures
        device_model(lead, v@) == Some(r@),
{
    if lead == 'R' {
        Model::Resistor(v)
    } else if lead == 'C' {
        Model::Capacitor(v)
    } else if lead == 'L' {
        Model::Inductor(v)
    } else if lead == 'V' {
        Model::VoltageSource(v)
    } else {
        Model::CurrentSource(v)
    }
}

fn lead_char_exec(t: &Token) -> (r: char)
    ensures
        r == lead_char(t@),
{
    if t.content.as_str().unicode_len() > 0 {
        t.content.as_str().get_char(0)
    } else {
        '\0'
    }
}

impl Builder {
    fn clashes_exec(&self, name: &String, comp: &String) -> (r: bool)
        requires
            self.wf(),
        ensures
            r == clashes(self@, name@, comp@),
    {
        reserved_node_exec(name).is_none() && self.table.resolve(name, SymbolType::Node).is_none() && (
        self.table.declares(name) || *name == *comp)
    }

    fn instance_name_error_exec(&self, c: &Vec<Token>, from: usize, to: usize) -> (r: Option<Error>)
        requires
            self.wf(),
            c@.len() > 0,
            from <= to <= c@.len(),
        ensures
            r matches Some(e) ==> instance_name_error(self@, token_views(c@), from as nat, to as nat) == Some(e@),
            r is None ==> instance_name_error(self@, token_views(c@), from as nat, to as nat) is None,
    {
        let ghost cv = token_views(c@);
        assert(cv[0] == c@[0]@);
        if self.table.declares(&c[0].content) {
            return Some(token_error(&c[0], ErrorType::Semantic, "Duplicate definition: ", &c[0].content));
        }
        let mut k = from;
        while k < to
            invariant
                self.wf(),
                from <= k <= to <= c@.len(),
                cv == token_views(c@),
                !declared_in(self@.frames.last(), cv[0].lexeme),
                first_clash(self@, cv, k as nat, to as nat, cv[0].lexeme) == first_clash(
                    self@,
                    cv,
                    from as nat,
                    to as nat,
                    cv[0].lexeme,
                ),
            decreases to - k,
        {
            assert(cv[k as int] == c@[k as int]@ && cv[0] == c@[0]@);
            if self.clashes_exec(&c[k].content, &c[0].content) {
                assert(first_clash(self@, cv, k as nat, to as nat, cv[0].lexeme) == k);
                return Some(token_error(&c[k], ErrorType::Semantic, "Duplicate definition: ", &c[k].content));
            }
            k += 1;
        }
        None
    }

    fn add_component(&mut self, c: &Vec<Token>, from: usize, to: usize, model: Model, callee: String)
        requires
            old(self).wf(),
            c@.len() > 0,
            from <= to <= c@.len(),
            instance_name_error(old(self)@, token_views(c@), from as nat, to as nat) is None,
        ensures
            final(self).wf(),
            final(self)@ == add_component(old(self)@, token_views(c@), from as nat, to as nat, model@, callee@),
    {
        let ghost cv = token_views(c@);
        let idx = self.circuit.components.len();
        let owner = if self.open.len() > 0 {
            Some(self.open[self.open.len() - 1])
        } else {
            None
        };
        proof {
            lemma_terminals_ok(self@, cv, from as nat, to as nat);
        }
        self.declare(Symbol { name: c[0].content.clone(), symbol_type: SymbolType::Component, index: idx });
        assert forall|k: int| from <= k < to implies node_ok(self@, #[trigger] c@[k]@.lexeme) by {
            assert(cv[k] == c@[k]@);
        }
        let ns = self.node_refs(c, from, to);
        let ghost st2 = self@;
        let ghost comp = SpecComponent { name: cv[0].lexeme, terminals: ns@, model: model@, callee: callee@, owner };
        self.circuit.components.push(Component { name: c[0].content.clone(), terminals: ns, model, callee, owner });
        assert(self@.circuit.components =~= st2.circuit.components.push(comp));
    }

    fn device_card(&mut self, c: &Vec<Token>)
        requires
            old(self).wf(),
            c@.len() > 0,
            is_device_lead(lead_char(c@[0]@)),
        ensures
            final(self).wf(),
            final(self)@ == device_card(old(self)@, token_views(c@)),
    {
        let n = c.len();
        let bad = first_non_node_exec(c, 1, if n < 3 {
            n
        } else {
            3
        });
        if n < 3 || bad < 3 {
            self.add_err(crate::literal::error_at(c, bad, "Expected node"));
            return ;
        }
        let (v, next) = parse_literal(c, 3, &mut self.errors);
        if next < n {
            self.add_err(crate::literal::error_at(c, next, "Unexpected token"));
            return ;
        }
        match self.instance_name_error_exec(c, 1, 3) {
            Some(e) => {
                self.add_err(e);
            },
            None => {
                let lead = lead_char_exec(&c[0]);
                let model = device_model_exec(lead, v);
                self.add_component(c, 1, 3, model, String::new());
            },
        }
    }

    fn push_pending(&mut self, r: Reference)
        requires
            old(self).wf(),
        ensures
            final(self).wf(),
            final(self)@ == (PState {
                pending: old(self)@.pending.update(
                    old(self)@.pending.len() - 1,
                    old(self)@.pending.last().push(r@),
                ),
                ..old(self)@
            }),
    {
        let ghost rv = r@;
        let mut last = self.pending.pop().unwrap();
        let ghost lv = ref_views(last@);
        last.push(r);
        assert(ref_views(last@) =~= lv.push(rv));
        self.pending.push(last);
        assert(self@.pending =~= old(self)@.pending.update(
            old(self)@.pending.len() - 1,
            old(self)@.pending.last().push(rv),
        ));
    }

    fn call_card(&mut self, c: &Vec<Token>)
        requires
            old(self).wf(),
            c@.len() > 0,
        ensures
            final(self).wf(),
            final(self)@ == call_card(old(self)@, token_views(c@)),
    {
        let ghost cv = token_views(c@);
        let n = c.len();
        if n < 2 || c[n - 1].token_type != TokenType::Identifier {
            self.add_err(crate::literal::error_at(c, n - 1, "Expected subcircuit name"));
            return ;
        }
        let bad = first_non_node_exec(c, 1, n - 1);
        if bad < n - 1 {
            self.add_err(crate::literal::error_at(c, bad, "Expected node"));
            return ;
        }
        match self.instance_name_error_exec(c, 1, n - 1) {
            Some(e) => {
                self.add_err(e);
                return ;
            },
            None => {},
        }
        self.add_component(c, 1, n - 1, Model::Subcircuit, c[n - 1].content.clone());
        let r = Reference { name: c[n - 1].content.clone(), line: c[n - 1].line, column: c[n - 1].column };
        self.push_pending(r);
    }
}

impl Reference {
    pub fn duplicate(&self) -> (r: Reference)
        ensures
            r@ == self@,
    {
        Reference { name: self.name.clone(), line: self.line, column: self.column }
    }
}

impl Builder {
    fn subckt_card(&mut self, c: &Vec<Token>)
        requires
            old(self).wf(),
            c@.len() > 0,
        ensures
            final(self).wf(),
            final(self)@ == subckt_card(old(self)@, token_views(c@)),
    {
        let ghost cv = token_views(c@);
        let n = c.len();
        if n < 2 || c[1].token_type != TokenType::Identifier {
            self.add_err(crate::literal::error_at(c, 1, "Expected subcircuit name"));
            return ;
        }
        let bad = first_non_node_exec(c, 2, n);
        if bad < n {
            self.add_err(crate::literal::error_at(c, bad, "Expected node"));
            return ;
        }
        let idx = self.circuit.subcircuits.len();
        let top = self.table.depth() - 1;
        if self.table.declares(&c[1].content) {
            self.add_err(token_error(&c[1], ErrorType::Semantic, "Duplicate definition: ", &c[1].content));
        } else {
            self.declare(Symbol { name: c[1].content.clone(), symbol_type: SymbolType::Subcircuit, index: idx });
        }
        let ghost st1 = self@;
        self.table.open_scope();
        self.pending.push(Vec::new());
        self.open.push(idx);
        assert(self@.open =~= st1.open.push(idx));
        assert(self@.frames =~= st1.frames.push(seq![]));
        assert(ref_views(self.pending@.last()@) =~= seq![]);
        assert(self@.pending =~= st1.pending.push(seq![]));
        assert(self@ == PState {
            frames: st1.frames.push(seq![]),
            pending: st1.pending.push(seq![]),
            open: st1.open.push(idx),
            ..st1
        });
        let ports = self.port_decls(c, 2, n);
        let ghost st3 = self@;
        let ghost def = SpecSubcircuit { name: cv[1].lexeme, ports: ports@, line: cv[0].line, column: cv[0].column };
        self.circuit.subcircuits.push(
            Subcircuit { name: c[1].content.clone(), ports, line: c[0].line, column: c[0].column },
        );
        assert(self@.circuit.subcircuits =~= st3.circuit.subcircuits.push(def));
    }

    fn close_scope(&mut self)
        requires
            old(self).wf(),
            old(self)@.open.len() > 0,
        ensures
            final(self).wf(),
            final(self)@ == close_scope(old(self)@),
    {
        let ghost st = self@;
        let top = self.table.depth() - 1;
        let refs = self.pending.pop().unwrap();
        let ghost rv = ref_views(refs@);
        assert(rv == st.pending.last());
        let ghost frame = self.table@.last();
        let mut left: Vec<Reference> = Vec::new();
        let mut i: usize = 0;
        while i < refs.len()
            invariant
                i <= refs@.len(),
                rv == ref_views(refs@),
                self.table@ == st.frames,
                top + 1 == st.frames.len(),
                frame == st.frames.last(),
                ref_views(left@) == unresolved(rv.take(i as int), frame),
            decreases refs@.len() - i,
        {
            assert(rv.take(i as int + 1).drop_last() =~= rv.take(i as int));
            if self.table.lookup_at(top, &refs[i].name, SymbolType::Subcircuit).is_none() {
                let ghost lv = ref_views(left@);
                left.push(refs[i].duplicate());
                assert(ref_views(left@) =~= lv.push(rv[i as int]));
            }
            i += 1;
        }
        assert(rv.take(i as int) =~= rv);
        let _ = self.table.close_scope();
        let mut parent = self.pending.pop().unwrap();
        let ghost pv = ref_views(parent@);
        let ghost lv = ref_views(left@);
        parent.append(&mut left);
        assert(ref_views(parent@) =~= pv + lv);
        self.pending.push(parent);
        let _ = self.open.pop();
        assert(self@.pending =~= close_scope(st).pending);
        assert(self@.open =~= close_scope(st).open);
        assert(self@.frames =~= close_scope(st).frames);
    }

    fn ends_card(&mut self, c: &Vec<Token>)
        requires
            old(self).wf(),
            c@.len() > 0,
        ensures
            final(self).wf(),
            final(self)@ == ends_card(old(self)@, token_views(c@)),
    {
        if c.len() > 1 {
            self.add_err(crate::literal::error_at(c, 1, "Unexpected token"));
        } else if self.open.len() == 0 {
            self.add_err(crate::literal::error_at(c, 0, "Unmatched .ends"));
        } else {
            self.close_scope();
        }
    }
}

fn semantic_at(t: &Token, message: &str) -> (r: Error)
    ensures
        r@ == semantic_error(message@, t@),
{
    Error::new(ErrorType::Semantic, String::from_str(message), t.line, t.column)
}

fn set_param_exec(slot: &mut Option<Decimal>, v: Decimal) -> (conflict: bool)
    ensures
        (decimal_view(*final(slot)), conflict) == set_param(decimal_view(*old(slot)), v@),
{
    let conflict = match &*slot {
        Some(w) => !w.same(&v),
        None => false,
    };
    if slot.is_none() {
        *slot = Some(v);
    }
    conflict
}

impl Builder {
    fn analysis_card(&mut self, c: &Vec<Token>)
        requires
            old(self).wf(),
            c@.len() > 0,
        ensures
            final(self).wf(),
            final(self)@ == analysis_card(old(self)@, token_views(c@)),
    {
        let ghost cv = token_views(c@);
        let kind = c[0].token_type;
        let ty = if kind == TokenType::Tran {
            SimulationType::TRAN
        } else if kind == TokenType::Ac {
            SimulationType::AC
        } else if kind == TokenType::Dc {
            SimulationType::DC
        } else {
            SimulationType::OP
        };
        let two = kind == TokenType::Tran || kind == TokenType::Ac;
        let mut v1 = Decimal::zero();
        let mut v2 = Decimal::zero();
        let mut end: usize = if kind == TokenType::Dc {
            c.len()
        } else {
            1
        };
        if two {
            let (a, n1) = parse_literal(c, 1, &mut self.errors);
            let (b, n2) = parse_literal(c, n1, &mut self.errors);
            v1 = a;
            v2 = b;
            end = n2;
        }
        let ghost st1 = self@;
        assert(st1.errors =~= (if two {
            old(self)@.errors + literal_at(cv, 1).errors + literal_at(cv, literal_at(cv, 1).next).errors
        } else {
            old(self)@.errors
        }));
        if end < c.len() {
            self.add_err(crate::literal::error_at(c, end, "Unexpected token"));
            return ;
        }
        let conflict = match self.circuit.sim_params.sim_type {
            Some(t) => t != ty,
            None => false,
        };
        if conflict {
            self.add_err(semantic_at(&c[0], "Conflicting simulation directive"));
            return ;
        }
        let ghost sim = self@.circuit.sim_params;
        self.circuit.sim_params.sim_type = Some(ty);
        let mut c1 = false;
        let mut c2 = false;
        if kind == TokenType::Tran {
            c1 = set_param_exec(&mut self.circuit.sim_params.time_step, v1);
            c2 = set_param_exec(&mut self.circuit.sim_params.stop_time, v2);
        } else if kind == TokenType::Ac {
            c1 = set_param_exec(&mut self.circuit.sim_params.start_freq, v1);
            c2 = set_param_exec(&mut self.circuit.sim_params.stop_freq, v2);
        }
        if c1 {
            self.add_err(semantic_at(&c[0], "Conflicting simulation parameter"));
        }
        if c2 {
            self.add_err(semantic_at(&c[0], "Conflicting simulation parameter"));
        }
        let ghost ce = conflict_errors(seq![c1, c2], cv[0]);
        assert(seq![c1, c2].drop_last() =~= seq![c1]);
        assert(seq![c1].drop_last() =~= Seq::<bool>::empty());
        let ghost e = semantic_error("Conflicting simulation parameter"@, cv[0]);
        assert(conflict_errors(Seq::<bool>::empty(), cv[0]) == Seq::<SpecError>::empty());
        assert(conflict_errors(seq![c1], cv[0]) =~= (if c1 { seq![e] } else { seq![] }));
        assert(ce =~= (if c1 { seq![e] } else { seq![] }) + (if c2 { seq![e] } else { seq![] }));
        assert(self@.errors =~= st1.errors + ce);
    }

    fn card_step(&mut self, c: &Vec<Token>)
        requires
            old(self).wf(),
            c@.len() > 0,
        ensures
            final(self).wf(),
            final(self)@ == card_step(old(self)@, token_views(c@)),
    {
        let k = c[0].token_type;
        if k == TokenType::Ends {
            self.ends_card(c);
        } else if k == TokenType::Subckt {
            self.subckt_card(c);
        } else if k == TokenType::Tran || k == TokenType::Ac || k == TokenType::Dc || k == TokenType::Op {
            self.analysis_card(c);
        } else if k == TokenType::Plot || k == TokenType::Wave {
        } else {
            let lead = lead_char_exec(&c[0]);
            if is_device_lead_exec(lead) {
                self.device_card(c);
            } else if lead == 'X' {
                self.call_card(c);
            } else {
                let mut msg = String::from_str("Unknown leading character: ");
                push_char(&mut msg, lead);
                self.add_err(Error::new(ErrorType::Syntax, msg, c[0].line, c[0].column));
            }
        }
    }

    fn finish(&mut self)
        requires
            old(self).wf(),
        ensures
            final(self).wf(),
            final(self)@ == finish(old(self)@),
    {
        while self.open.len() > 0 && self.open[self.open.len() - 1] < self.circuit.subcircuits.len()
            invariant
                self.wf(),
                finish(self@) == finish(old(self)@),
            decreases self@.open.len(),
        {
            let d = self.open[self.open.len() - 1];
            let e = token_error_at(
                self.circuit.subcircuits[d].line,
                self.circuit.subcircuits[d].column,
                ErrorType::Syntax,
                "Unclosed subcircuit: ",
                &self.circuit.subcircuits[d].name,
            );
            self.add_err(e);
            self.close_scope();
        }
        let ghost st = self@;
        let ghost rv = st.pending[0];
        let ghost frame = st.frames[0];
        let mut i: usize = 0;
        while i < self.pending[0].len()
            invariant
                self.wf(),
                i <= rv.len(),
                rv == ref_views(self.pending@[0]@),
                self@ == (PState { errors: st.errors + undefined_errors(unresolved(rv.take(i as int), frame)), ..st }),
                frame == self.table@[0],
            decreases rv.len() - i,
        {
            assert(rv.take(i as int + 1).drop_last() =~= rv.take(i as int));
            if self.table.lookup_at(0, &self.pending[0][i].name, SymbolType::Subcircuit).is_none() {
                let e = token_error_at(
                    self.pending[0][i].line,
                    self.pending[0][i].column,
                    ErrorType::Semantic,
                    "Undefined symbol: ",
                    &self.pending[0][i].name,
                );
                let ghost u = unresolved(rv.take(i as int), frame);
                assert(u.push(rv[i as int]).drop_last() =~= u);
                self.add_err(e);
                assert(self@.errors =~= st.errors + undefined_errors(unresolved(rv.take(i as int + 1), frame)));
            }
            assert(self@.pending[0] == ref_views(self.pending@[0]@));
            i += 1;
        }
        assert(rv.take(i as int) =~= rv);
    }
}

fn token_error_at(line: usize, column: usize, kind: ErrorType, prefix: &str, name: &String) -> (r: Error)
    ensures
        r@ == (SpecError { kind, message: prefix@ + name@, line: line as nat, column: column as nat }),
{
    let mut msg = String::from_str(prefix);
    msg.append(name.as_str());
    Error::new(kind, msg, line, column)
}

/// Parses cards into a circuit, collecting every error on the way.
pub struct Parser {
    tokens: Vec<Card>,
    current_card: usize,
    current: usize,
    builder: Builder,
}

impl Parser {
    /// The cards being parsed.
    pub closed spec fn cards(&self) -> Seq<Seq<SpecToken>> {
        card_views(self.tokens@)
    }

    /// What has been built so far: the circuit, the symbols and the errors.
    pub closed spec fn state(&self) -> PState {
        self.builder@
    }

    /// The internal invariant of the parser holds.
    pub closed spec fn ready(&self) -> bool {
        self.builder.wf()
    }

    /// Nothing has been parsed yet: the cursor is on the first token of the
    /// first card, nothing is built and no error is recorded.
    pub open spec fn is_fresh(&self) -> bool {
        &&& self.ready()
        &&& self.state() == initial_state()
        &&& self.cursor() == (0nat, 0nat)
    }

    /// The errors found so far.
    pub open spec fn error_list(&self) -> Seq<SpecError> {
        self.state().errors
    }

    /// The position of the cursor: a card and a token in it.
    pub closed spec fn cursor(&self) -> (nat, nat) {
        (self.current_card as nat, self.current as nat)
    }

    pub fn new(tokens: Vec<Card>) -> (r: Self)
        ensures
            r.cards() == card_views(tokens@),
            r.is_fresh(),
    {
        Parser { tokens, current_card: 0, current: 0, builder: Builder::new() }
    }

    /// The errors found so far, in order.
    pub fn errors(&self) -> (r: &ErrorHandler)
        ensures
            r@ == self.error_list(),
    {
        &self.builder.errors
    }

    /// The errors found, handed over.
    pub fn into_errors(self) -> (r: ErrorHandler)
        ensures
            r@ == self.error_list(),
    {
        self.builder.errors
    }

    /// Reads the numeric literal at the cursor and moves the cursor past it;
    /// its errors are added to this parser's errors.
    pub fn parse_num(&mut self) -> (r: Decimal)
        requires
            old(self).cursor().0 < old(self).cards().len(),
            old(self).cards()[old(self).cursor().0 as int].len() > 0,
        ensures
            ({
                let lit = literal_at(old(self).cards()[old(self).cursor().0 as int], old(self).cursor().1);
                &&& r@ == lit.value
                &&& final(self).cursor() == (old(self).cursor().0, lit.next)
                &&& final(self).error_list() == old(self).error_list() + lit.errors
                &&& final(self).cards() == old(self).cards()
            }),
    {
        let (v, next) = parse_literal(&self.tokens[self.current_card].tokens, self.current, &mut self.builder.errors);
        self.current = next;
        v
    }

    /// Parses every card up to `.end` or the end-of-file card. Returns the
    /// circuit; the errors stay in this parser (see `errors`).
    pub fn parse(&mut self) -> (r: Circuit)
        requires
            old(self).is_fresh(),
        ensures
            r@ == parse_cards(old(self).cards()).circuit,
            final(self).error_list() == parse_cards(old(self).cards()).errors,
            final(self).cards() == old(self).cards(),
    {
        let ghost cards = card_views(self.tokens@);
        let ghost target = parse_cards(cards);
        let mut stop = false;
        while self.current_card < self.tokens.len() && !stop
            invariant
                self.builder.wf(),
                cards == card_views(self.tokens@),
                self.current_card <= self.tokens@.len(),
                parse_from(self.builder@, cards, self.current_card as nat) == target,
                stop ==> self.current_card < cards.len() && cards[self.current_card as int].len() > 0
                    && (cards[self.current_card as int][0].kind == TokenType::Eof
                    || cards[self.current_card as int][0].kind == TokenType::End),
            decreases self.tokens@.len() - self.current_card, if stop { 0int } else { 1int },
        {
            let i = self.current_card;
            let n = self.tokens[i].tokens.len();
            if n == 0 {
                self.current_card = i + 1;
            } else {
                let k = self.tokens[i].tokens[0].token_type;
                if k == TokenType::Eof || k == TokenType::End {
                    stop = true;
                } else {
                    self.builder.card_step(&self.tokens[i].tokens);
                    self.current_card = i + 1;
                }
            }
        }
        self.builder.finish();
        let mut out = Circuit::new();
        core::mem::swap(&mut out, &mut self.builder.circuit);
        out
    }
}

/// Tokenizes and parses a netlist. Returns the circuit, and the lexical errors
/// followed by the errors of the parse, each group in source order.
pub fn parse_netlist(source: String) -> (r: (Circuit, ErrorHandler))
    requires
        source@.len() < usize::MAX,
    ensures
        r.0@ == parse_cards(crate::lexer::cards_of(crate::lexer::lex_tokens(source@))).circuit,
        r.1@ == crate::lexer::lex_errors(source@) + parse_cards(
            crate::lexer::cards_of(crate::lexer::lex_tokens(source@)),
        ).errors,
{
    let lexer = crate::lexer::Lexer::new(source);
    let (cards, mut errors) = lexer.scan();
    let mut parser = Parser::new(cards);
    let circuit = parser.parse();
    errors.absorb(parser.into_errors());
    (circuit, errors)
}

} // verus!
