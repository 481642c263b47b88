//! Properties of the tokenizer, the card assembler and the parser, proved over
//! the specification functions that their contracts use.
use vstd::prelude::*;
use crate::lexer::{
    alpha_end, cards_of, digits_end, is_continuation, starts_card, is_digit_char, is_exp_marker, lex_errors, lex_tokens, line_end,
    lower, number_end, number_head, number_step, scan_from, step, unit_end,
};
use crate::token::{SpecToken, TokenType, tok};
use crate::error::{ErrorType, SpecError};
use crate::parser::{
    PState, close_scope, finish, is_node_token, port_decl, port_decls, semantic_error, state_wf, subckt_card,
    undefined_errors, unresolved,
};
use crate::sym_table::{SpecSymbol, SymbolType, declared_in, lookup_in};

verus! {

proof fn lemma_digits_end_at(s: Seq<char>, i: nat, e: nat)
    requires
        i <= e <= s.len(),
        forall|k: int| i <= k < e ==> is_digit_char(#[trigger] s[k]),
        e == s.len() || !is_digit_char(s[e as int]),
    ensures
        digits_end(s, i) == e,
    decreases e - i,
{
    if i < e {
        lemma_digits_end_at(s, i + 1, e);
    }
}

/// An unsigned decimal (digits, with at most one `.` between digits, such as
/// `22` or `0.5`) scans, with no error, to exactly one number token whose
/// lexeme is the whole text, followed by the end-of-file token; the two form
/// two cards.
pub proof fn lemma_decimal_one_number(d: Seq<char>)
    requires
        is_unsigned_decimal(d),
    ensures
        lex_tokens(d) == seq![
            tok(TokenType::Number, 1, 1, d),
            tok(TokenType::Eof, 1, d.len() + 1, seq![]),
        ],
        lex_errors(d) == Seq::<crate::error::SpecError>::empty(),
        cards_of(lex_tokens(d)) == seq![
            seq![tok(TokenType::Number, 1, 1, d)],
            seq![tok(TokenType::Eof, 1, d.len() + 1, seq![])],
        ],
{
    reveal(step);
    let len = d.len();
    if exists|p: int| 0 <= p < len && d[p] == '.' {
        let p = choose|p: int| 0 <= p < len && d[p] == '.';
        assert forall|k: int| 0 <= k < len && k != p implies is_digit_char(#[trigger] d[k]) by {
            if k < p {
                assert(d[k] != '.');
            } else {
                assert(d[k] != '.');
            }
        }
        assert(p != 0 && p != len - 1);
        lemma_digits_end_at(d, 0, p as nat);
        lemma_digits_end_at(d, (p + 1) as nat, len);
    } else {
        lemma_digits_end_at(d, 0, len);
    }
    assert(number_end(d, 0) == len);
    assert(!is_exp_marker(d, len));
    assert(unit_end(d, len) == len);
    assert(d.subrange(0, len as int) =~= d);
    let h = number_head(d, 0, 1, 1);
    assert(h.0 =~= seq![tok(TokenType::Number, 1, 1, d)]);
    let st = step(d, 0, 1, 1);
    assert(st.tokens =~= seq![tok(TokenType::Number, 1, 1, d)]);
    assert(st.next == len);
    let r = scan_from(d, len, 1, (len + 1) as nat);
    assert(r.tokens =~= Seq::<SpecToken>::empty());
    assert(lex_tokens(d) =~= seq![
        tok(TokenType::Number, 1, 1, d),
        tok(TokenType::Eof, 1, d.len() + 1, seq![]),
    ]);
    assert(lex_errors(d) =~= Seq::<crate::error::SpecError>::empty());
    let t = lex_tokens(d);
    let one = seq![tok(TokenType::Number, 1, 1, d)];
    assert(t.drop_last() =~= one);
    assert(one.drop_last() =~= Seq::<SpecToken>::empty());
    assert(cards_of(Seq::<SpecToken>::empty()) =~= Seq::<Seq<SpecToken>>::empty());
    assert(cards_of(one) =~= seq![one]);
    assert(cards_of(t) =~= seq![
        seq![tok(TokenType::Number, 1, 1, d)],
        seq![tok(TokenType::Eof, 1, d.len() + 1, seq![])],
    ]);
}

proof fn lemma_line_end_at(s: Seq<char>, i: nat, e: nat)
    requires
        i <= e < s.len(),
        s[e as int] == '\n',
        forall|k: int| i <= k < e ==> s[k] != '\n',
    ensures
        line_end(s, i) == e,
    decreases e - i,
{
    if i < e {
        lemma_line_end_at(s, i + 1, e);
    }
}

/// A full-line comment leaves no token, whatever its text: a comment line and
/// an `.end` line scan, with no error, to the `.end` card and the end-of-file
/// card.
pub proof fn lemma_comment_then_end(c: Seq<char>)
    requires
        forall|k: int| 0 <= k < c.len() ==> c[k] != '\n',
    ensures
        ({
            let s = seq!['*'] + c + seq!['\n'] + ".end\n"@;
            &&& lex_tokens(s) == seq![tok(TokenType::End, 2, 1, ".end"@), tok(TokenType::Eof, 2, 5, seq![])]
            &&& lex_errors(s) == Seq::<crate::error::SpecError>::empty()
            &&& cards_of(lex_tokens(s)) == seq![
                seq![tok(TokenType::End, 2, 1, ".end"@)],
                seq![tok(TokenType::Eof, 2, 5, seq![])],
            ]
        }),
{
    reveal(step);
    reveal_strlit(".end\n");
    reveal_strlit(".end");
    let s = seq!['*'] + c + seq!['\n'] + ".end\n"@;
    let e: int = c.len() + 1int;
    assert(s.len() == c.len() + 7);
    assert(s[0] == '*');
    assert forall|k: int| 1 <= k < e implies s[k] != '\n' by {
        assert(s[k] == c[k - 1]);
    }
    assert(s[e as int] == '\n');
    assert(s[e + 1] == '.' && s[e + 2] == 'e' && s[e + 3] == 'n' && s[e + 4] == 'd' && s[e + 5] == '\n');
    lemma_line_end_at(s, 1, e as nat);
    lemma_line_end_at(s, 0, e as nat);
    let st0 = step(s, 0, 1, 1);
    assert(st0.next == e && st0.line == 1 && st0.column == 1 + e);
    assert(st0.tokens.len() == 0 && st0.errors.len() == 0);
    let st1 = step(s, e as nat, 1, (1 + e) as nat);
    assert(st1.next == e + 1 && st1.line == 2 && st1.column == 1);
    assert(st1.tokens.len() == 0 && st1.errors.len() == 0);
    let a = (e + 5) as nat;
    assert(alpha_end(s, a) == a);
    assert(alpha_end(s, (e + 4) as nat) == a);
    assert(alpha_end(s, (e + 3) as nat) == a);
    assert(alpha_end(s, (e + 2) as nat) == a);
    let w = lower(s.subrange(e + 1, a as int));
    assert(s.subrange(e + 1, a as int) =~= ".end"@);
    assert(w =~= ".end"@);
    let st2 = step(s, (e + 1) as nat, 2, 1);
    assert(st2.tokens =~= seq![tok(TokenType::End, 2, 1, ".end"@)]);
    assert(st2.errors.len() == 0);
    assert(st2.next == a && st2.line == 2 && st2.column == 5);
    let r2 = scan_from(s, (e + 1) as nat, 2, 1);
    assert(r2.tokens == st2.tokens && r2.line == 2 && r2.column == 5);
    let r1 = scan_from(s, e as nat, 1, (1 + e) as nat);
    assert(r1.tokens =~= st2.tokens);
    let r0 = scan_from(s, 0, 1, 1);
    assert(r0.tokens =~= st2.tokens);
    assert(r0.errors =~= Seq::<crate::error::SpecError>::empty());
    let t = lex_tokens(s);
    let one = seq![tok(TokenType::End, 2, 1, ".end"@)];
    assert(t =~= one.push(tok(TokenType::Eof, 2, 5, seq![])));
    assert(t.drop_last() =~= one);
    assert(one.drop_last() =~= Seq::<SpecToken>::empty());
    assert(cards_of(Seq::<SpecToken>::empty()) =~= Seq::<Seq<SpecToken>>::empty());
    assert(cards_of(one) =~= seq![one]);
    assert(cards_of(t) =~= seq![one, seq![tok(TokenType::Eof, 2, 5, seq![])]]);
}

/// Every exponent marker directly follows a number token whose text ends with a
/// digit: same line, first column right after that text.
#[verifier::opaque]
pub open spec fn markers_follow_digits(t: Seq<SpecToken>) -> bool {
    forall|k: int|
        #![trigger t[k]]
        0 <= k < t.len() && t[k].kind == TokenType::E ==> {
            &&& k > 0
            &&& t[k - 1].kind == TokenType::Number
            &&& t[k - 1].line == t[k].line
            &&& t[k - 1].column + t[k - 1].lexeme.len() == t[k].column
            &&& t[k - 1].lexeme.len() > 0
            &&& is_digit_char(t[k - 1].lexeme.last())
        }
}

proof fn lemma_digits_end_props(s: Seq<char>, i: nat)
    ensures
        digits_end(s, i) >= i,
        digits_end(s, i) <= s.len() || digits_end(s, i) == i,
        i < s.len() && is_digit_char(s[i as int]) ==> digits_end(s, i) > i,
        digits_end(s, i) > i ==> is_digit_char(s[digits_end(s, i) - 1]),
    decreases s.len() - i,
{
    if i < s.len() && is_digit_char(s[i as int]) {
        lemma_digits_end_props(s, i + 1);
    }
}

proof fn lemma_number_text(s: Seq<char>, i: nat)
    requires
        i < s.len(),
        is_digit_char(s[i as int]),
    ensures
        i < number_end(s, i) <= s.len(),
        is_digit_char(s[number_end(s, i) - 1]),
{
    lemma_digits_end_props(s, i);
    let j = digits_end(s, i);
    if j + 1 < s.len() && s[j as int] == '.' && is_digit_char(s[j + 1int]) {
        lemma_digits_end_props(s, j + 1);
    }
}

proof fn lemma_concat_markers(a: Seq<SpecToken>, b: Seq<SpecToken>)
    requires
        markers_follow_digits(a),
        markers_follow_digits(b),
        b.len() > 0 ==> b[0].kind != TokenType::E,
    ensures
        markers_follow_digits(a + b),
        (a + b).len() > 0 && a.len() > 0 ==> (a + b)[0] == a[0],
{
    reveal(markers_follow_digits);
    let t = a + b;
    assert forall|k: int| 0 <= k < t.len() && #[trigger] t[k].kind == TokenType::E implies {
        &&& k > 0
        &&& t[k - 1].kind == TokenType::Number
        &&& t[k - 1].line == t[k].line
        &&& t[k - 1].column + t[k - 1].lexeme.len() == t[k].column
        &&& t[k - 1].lexeme.len() > 0
        &&& is_digit_char(t[k - 1].lexeme.last())
    } by {
        if k < a.len() {
            assert(t[k] == a[k]);
            assert(a[k].kind == TokenType::E);
            assert(t[k - 1] == a[k - 1]);
        } else {
            assert(t[k] == b[k - a.len()]);
            assert(b[k - a.len()].kind == TokenType::E);
            assert(t[k - 1] == b[k - a.len() - 1]);
        }
    }
}

proof fn lemma_number_markers(s: Seq<char>, i: nat, line: nat, col: nat)
    requires
        i < s.len(),
        is_digit_char(s[i as int]),
    ensures
        markers_follow_digits(number_step(s, i, line, col).0),
        number_step(s, i, line, col).0.len() > 0,
        number_step(s, i, line, col).0[0].kind == TokenType::Number,
    decreases s.len() - i,
{
    let h = number_head(s, i, line, col);
    lemma_number_text(s, i);
    let j = number_end(s, i);
    let num = tok(TokenType::Number, line, col, s.subrange(i as int, j as int));
    assert(num.lexeme.last() == s[j - 1]);
    assert(h.0[0] == num);
    assert(markers_follow_digits(h.0)) by {
        reveal(markers_follow_digits);
        assert forall|k: int| 0 <= k < h.0.len() && #[trigger] h.0[k].kind == TokenType::E implies k == 1 by {
            if k >= 2 {
                assert(h.0[k].kind != TokenType::E);
            }
        }
    }
    if h.2 {
        lemma_number_markers(s, h.1, line, (col + h.1 - i) as nat);
        let rest = number_step(s, h.1, line, (col + h.1 - i) as nat).0;
        lemma_concat_markers(h.0, rest);
        assert((h.0 + rest)[0] == h.0[0]);
    }
}

proof fn lemma_step_markers(s: Seq<char>, i: nat, line: nat, col: nat)
    requires
        i < s.len(),
    ensures
        markers_follow_digits(step(s, i, line, col).tokens),
        step(s, i, line, col).tokens.len() > 0 ==> step(s, i, line, col).tokens[0].kind != TokenType::E,
{
    reveal(step);
    let c = s[i as int];
    if is_digit_char(c) && !(c == '*' || c == ';') && crate::lexer::punct_kind(c) is None && c != '.' {
        lemma_number_markers(s, i, line, col);
    } else {
        lemma_no_markers(step(s, i, line, col).tokens);
    }
}

proof fn lemma_no_markers(t: Seq<SpecToken>)
    requires
        forall|k: int| 0 <= k < t.len() ==> t[k].kind != TokenType::E,
    ensures
        markers_follow_digits(t),
{
    reveal(markers_follow_digits);
}

proof fn lemma_scan_markers(s: Seq<char>, i: nat, line: nat, col: nat)
    ensures
        markers_follow_digits(scan_from(s, i, line, col).tokens),
        scan_from(s, i, line, col).tokens.len() > 0 ==> scan_from(s, i, line, col).tokens[0].kind
            != TokenType::E,
    decreases s.len() - i,
{
    if i >= s.len() {
        lemma_no_markers(scan_from(s, i, line, col).tokens);
    } else {
        let st = step(s, i, line, col);
        lemma_step_markers(s, i, line, col);
        if !(st.next <= i || st.next > s.len() || crate::lexer::ends_with_end(st.tokens)) {
            lemma_scan_markers(s, st.next, st.line, st.column);
            let r = scan_from(s, st.next, st.line, st.column);
            lemma_concat_markers(st.tokens, r.tokens);
        }
    }
}

/// An `E` or `e` is an exponent marker only right after the digits of a number:
/// in the tokens of any text, each marker directly follows a number token that
/// ends with a digit. (So `E1` that begins an identifier is never a marker.)
pub proof fn lemma_markers_follow_digits(s: Seq<char>)
    ensures
        markers_follow_digits(lex_tokens(s)),
{
    lemma_scan_markers(s, 0, 1, 1);
    let r = scan_from(s, 0, 1, 1);
    lemma_no_markers(seq![tok(TokenType::Eof, r.line, r.column, seq![])]);
    lemma_concat_markers(r.tokens, seq![tok(TokenType::Eof, r.line, r.column, seq![])]);
    assert(lex_tokens(s) =~= r.tokens + seq![tok(TokenType::Eof, r.line, r.column, seq![])]);
}

/// The number of tokens among the first `n` that begin a card.
pub open spec fn count_starts(t: Seq<SpecToken>, n: nat) -> nat
    decreases n,
{
    if n == 0 {
        0
    } else {
        count_starts(t, (n - 1) as nat) + if starts_card(t, n - 1) { 1nat } else { 0nat }
    }
}

/// The tokens without the continuation markers.
pub open spec fn kept(t: Seq<SpecToken>) -> Seq<SpecToken>
    decreases t.len(),
{
    if t.len() == 0 {
        seq![]
    } else if is_continuation(t, t.len() - 1) {
        kept(t.drop_last())
    } else {
        kept(t.drop_last()).push(t.last())
    }
}

/// The cards' tokens, one card after the other.
pub open spec fn flatten(cs: Seq<Seq<SpecToken>>) -> Seq<SpecToken>
    decreases cs.len(),
{
    if cs.len() == 0 {
        seq![]
    } else {
        flatten(cs.drop_last()) + cs.last()
    }
}

proof fn lemma_count_prefix(t: Seq<SpecToken>, m: nat)
    requires
        t.len() > 0,
        m < t.len(),
    ensures
        count_starts(t.drop_last(), m) == count_starts(t, m),
    decreases m,
{
    if m > 0 {
        lemma_count_prefix(t, (m - 1) as nat);
        let k = m - 1;
        assert(t.drop_last()[k] == t[k]);
        if k > 0 {
            assert(t.drop_last()[k - 1] == t[k - 1]);
        }
        assert(starts_card(t.drop_last(), k) == starts_card(t, k));
    }
}

/// Tokens group into one card per logical statement: the number of cards is
/// the number of tokens that begin a line without a `+` (plus the first token
/// and the end-of-file token); every card is nonempty; and the cards hold all
/// tokens in order except the continuation markers, which merge a line into
/// the card before it.
pub proof fn lemma_cards_shape(t: Seq<SpecToken>)
    ensures
        cards_of(t).len() == count_starts(t, t.len()),
        forall|i: int| 0 <= i < cards_of(t).len() ==> #[trigger] cards_of(t)[i].len() > 0,
        flatten(cards_of(t)) == kept(t),
    decreases t.len(),
{
    if t.len() > 0 {
        let d = t.drop_last();
        lemma_cards_shape(d);
        lemma_count_prefix(t, d.len());
        let prev = cards_of(d);
        let k = t.len() - 1;
        assert(d.len() > 0 ==> prev.len() > 0);
        if starts_card(t, k) || prev.len() == 0 {
            assert(cards_of(t) == prev.push(seq![t[k]]));
            assert(cards_of(t).drop_last() =~= prev);
            assert(!is_continuation(t, k));
            assert(forall|i: int| 0 <= i < prev.len() ==> #[trigger] cards_of(t)[i] == prev[i]);
        } else if is_continuation(t, k) {
        } else {
            let c = prev.update(prev.len() - 1, prev.last().push(t[k]));
            assert(cards_of(t) == c);
            assert(c.drop_last() =~= prev.drop_last());
            assert(flatten(prev) == flatten(prev.drop_last()) + prev.last());
            assert(flatten(c) =~= flatten(prev).push(t[k]));
            assert(forall|i: int| 0 <= i < prev.len() - 1 ==> #[trigger] c[i] == prev[i]);
        }
    }
}

proof fn lemma_undefined_semantic(refs: Seq<crate::parser::SpecRef>)
    ensures
        undefined_errors(refs).len() == refs.len(),
        forall|k: int| 0 <= k < refs.len() ==> #[trigger] undefined_errors(refs)[k].kind == ErrorType::Semantic,
    decreases refs.len(),
{
    if refs.len() > 0 {
        lemma_undefined_semantic(refs.drop_last());
    }
}

/// End of input inside a subcircuit body (one `.subckt` without its `.ends`)
/// adds exactly one syntax error, "Unclosed subcircuit", at that `.subckt`;
/// the errors already found stay first, every later one is an undefined
/// reference, and every component, net and definition parsed so far is kept.
pub proof fn lemma_unclosed_scope(st: PState)
    requires
        state_wf(st),
        st.open.len() == 1,
        st.open[0] < st.circuit.subcircuits.len(),
    ensures
        ({
            let r = finish(st);
            let def = st.circuit.subcircuits[st.open[0] as int];
            let n = st.errors.len();
            &&& r.circuit == st.circuit
            &&& r.errors.len() > n
            &&& r.errors.take(n as int) == st.errors
            &&& r.errors[n as int] == (SpecError {
                kind: ErrorType::Syntax,
                message: "Unclosed subcircuit: "@ + def.name,
                line: def.line,
                column: def.column,
            })
            &&& forall|k: int| n < k < r.errors.len() ==> #[trigger] r.errors[k].kind == ErrorType::Semantic
        }),
{
    let def = st.circuit.subcircuits[st.open[0] as int];
    let e = SpecError { kind: ErrorType::Syntax, message: "Unclosed subcircuit: "@ + def.name, line: def.line, column: def.column };
    let st1 = PState { errors: st.errors.push(e), ..st };
    let st2 = close_scope(st1);
    assert(st2.open.len() == 0);
    let left = unresolved(st2.pending[0], st2.frames[0]);
    lemma_undefined_semantic(left);
    let r = finish(st);
    assert(st.open.last() == st.open[0]);
    assert(finish(st) == finish(st2));
    assert(finish(st2) == PState { errors: st2.errors + undefined_errors(left), ..st2 });
    assert(r.errors.take(st.errors.len() as int) =~= st.errors);
    assert forall|k: int| st.errors.len() < k < r.errors.len() implies #[trigger] r.errors[k].kind == ErrorType::Semantic by {
        assert(r.errors[k] == undefined_errors(left)[k - st.errors.len() - 1]);
    }
}

proof fn lemma_declared_absent(f: Seq<SpecSymbol>, name: Seq<char>)
    requires
        forall|i: int| 0 <= i < f.len() ==> f[i].name != name,
    ensures
        !declared_in(f, name),
    decreases f.len(),
{
    if f.len() > 0 {
        lemma_declared_absent(f.drop_last(), name);
    }
}

/// Declaring pairwise distinct port names in a frame that starts empty adds no
/// error, and the frame then holds only those names.
proof fn lemma_port_decls_clean(st: PState, c: Seq<SpecToken>, from: nat, to: nat)
    requires
        state_wf(st),
        st.frames.last().len() == 0,
        from <= to <= c.len(),
        forall|k: int, l: int| from <= k < l < to ==> c[k].lexeme != c[l].lexeme,
    ensures
        ({
            let r = port_decls(st, c, from, to).0;
            &&& state_wf(r)
            &&& r.errors == st.errors
            &&& r.circuit.subcircuits == st.circuit.subcircuits
            &&& forall|i: int|
                0 <= i < r.frames.last().len() ==> exists|k: int| from <= k < to && #[trigger] r.frames.last()[i].name
                    == c[k].lexeme
        }),
    decreases to,
{
    if to > from {
        let m = (to - 1) as nat;
        lemma_port_decls_clean(st, c, from, m);
        let st1 = port_decls(st, c, from, m).0;
        let t = c[m as int];
        assert forall|i: int| 0 <= i < st1.frames.last().len() implies st1.frames.last()[i].name != t.lexeme by {
            let k = choose|k: int| from <= k < m && #[trigger] st1.frames.last()[i].name == c[k].lexeme;
            assert(c[k].lexeme != c[m as int].lexeme);
        }
        lemma_declared_absent(st1.frames.last(), t.lexeme);
        let r = port_decl(st1, t).0;
        assert forall|i: int| 0 <= i < r.frames.last().len() implies exists|k: int|
            from <= k < to && #[trigger] r.frames.last()[i].name == c[k].lexeme by {
            if i < st1.frames.last().len() {
                assert(r.frames.last()[i] == st1.frames.last()[i]);
                let k = choose|k: int| from <= k < m && #[trigger] st1.frames.last()[i].name == c[k].lexeme;
                assert(from <= k < to && r.frames.last()[i].name == c[k].lexeme);
            } else {
                assert(r.frames.last()[i].name == c[m as int].lexeme);
            }
        }
    }
}

/// A subcircuit body starts with a frame of its own: the ports of a `.subckt`
/// card, when their names are pairwise distinct, never give a
/// duplicate-definition error, whatever other bodies declared before (the same
/// node name `1` may be a port of every subcircuit). The only error such a
/// card can give is a second definition of the subcircuit's own name.
pub proof fn lemma_fresh_body_ports(st: PState, c: Seq<SpecToken>)
    requires
        state_wf(st),
        c.len() >= 2,
        c[1].kind == TokenType::Identifier,
        forall|k: int| 2 <= k < c.len() ==> is_node_token(#[trigger] c[k]),
        forall|k: int, l: int| 2 <= k < l < c.len() ==> c[k].lexeme != c[l].lexeme,
    ensures
        subckt_card(st, c).errors == st.errors || subckt_card(st, c).errors == st.errors.push(
            semantic_error("Duplicate definition: "@ + c[1].lexeme, c[1]),
        ),
        subckt_card(st, c).open == st.open.push(st.circuit.subcircuits.len() as usize),
{
    let n = c.len();
    assert(crate::parser::first_non_node(c, 2, n) == n) by {
        lemma_first_non_node_all(c, 2, n);
    }
    let name = c[1].lexeme;
    let idx = st.circuit.subcircuits.len();
    let st1 = if declared_in(st.frames.last(), name) {
        crate::parser::add_error(st, semantic_error("Duplicate definition: "@ + name, c[1]))
    } else {
        crate::parser::declare(st, SpecSymbol { name, kind: SymbolType::Subcircuit, index: idx })
    };
    let st2 = PState {
        frames: st1.frames.push(seq![]),
        pending: st1.pending.push(seq![]),
        open: st1.open.push(idx as usize),
        ..st1
    };
    lemma_port_decls_clean(st2, c, 2, n);
    let st3 = port_decls(st2, c, 2, n).0;
    assert(st3.open == st2.open) by {
        lemma_port_decls_keep_open(st2, c, 2, n);
    }
}

proof fn lemma_first_non_node_all(c: Seq<SpecToken>, from: nat, to: nat)
    requires
        from <= to <= c.len(),
        forall|k: int| from <= k < to ==> is_node_token(#[trigger] c[k]),
    ensures
        crate::parser::first_non_node(c, from, to) == to,
    decreases to - from,
{
    if from < to {
        lemma_first_non_node_all(c, from + 1, to);
    }
}

proof fn lemma_port_decls_keep_open(st: PState, c: Seq<SpecToken>, from: nat, to: nat)
    ensures
        port_decls(st, c, from, to).0.open == st.open,
    decreases to,
{
    if to > from {
        lemma_port_decls_keep_open(st, c, from, (to - 1) as nat);
    }
}

/// Digits with at most one `.`, which is neither first nor last.
pub open spec fn is_unsigned_decimal(w: Seq<char>) -> bool {
    &&& w.len() > 0
    &&& is_digit_char(w[0])
    &&& is_digit_char(w.last())
    &&& forall|k: int| 0 <= k < w.len() ==> is_digit_char(#[trigger] w[k]) || w[k] == '.'
    &&& forall|k: int, l: int| 0 <= k < l < w.len() && #[trigger] w[k] == '.' ==> #[trigger] w[l] != '.'
}

/// Every number token's text is an unsigned decimal.
#[verifier::opaque]
pub open spec fn numbers_are_decimals(t: Seq<SpecToken>) -> bool {
    forall|k: int| #![trigger t[k]] 0 <= k < t.len() && t[k].kind == TokenType::Number ==> is_unsigned_decimal(t[k].lexeme)
}

proof fn lemma_digits_run(s: Seq<char>, i: nat)
    ensures
        forall|k: int| i <= k < digits_end(s, i) ==> is_digit_char(#[trigger] s[k]),
    decreases s.len() - i,
{
    if i < s.len() && is_digit_char(s[i as int]) {
        lemma_digits_run(s, i + 1);
    }
}

proof fn lemma_number_decimal(s: Seq<char>, i: nat)
    requires
        i < s.len(),
        is_digit_char(s[i as int]),
    ensures
        is_unsigned_decimal(s.subrange(i as int, number_end(s, i) as int)),
{
    lemma_number_text(s, i);
    lemma_digits_end_props(s, i);
    lemma_digits_run(s, i);
    let j = digits_end(s, i);
    let e = number_end(s, i);
    let w = s.subrange(i as int, e as int);
    if j + 1 < s.len() && s[j as int] == '.' && is_digit_char(s[j + 1int]) {
        lemma_digits_run(s, j + 1);
        lemma_digits_end_props(s, j + 1);
        assert forall|k: int| 0 <= k < w.len() implies is_digit_char(#[trigger] w[k]) || w[k] == '.' by {
            assert(w[k] == s[i + k]);
        }
        assert forall|k: int, l: int| 0 <= k < l < w.len() && #[trigger] w[k] == '.' implies #[trigger] w[l] != '.' by {
            assert(w[k] == s[i + k]);
            assert(w[l] == s[i + l]);
            if i + k != j {
                assert(is_digit_char(s[i + k]));
            }
            assert(i + l > j);
            assert(is_digit_char(s[i + l]));
        }
    } else {
        assert forall|k: int| 0 <= k < w.len() implies is_digit_char(#[trigger] w[k]) by {
            assert(w[k] == s[i + k]);
        }
    }
}

proof fn lemma_concat_numbers(a: Seq<SpecToken>, b: Seq<SpecToken>)
    requires
        numbers_are_decimals(a),
        numbers_are_decimals(b),
    ensures
        numbers_are_decimals(a + b),
{
    reveal(numbers_are_decimals);
    let t = a + b;
    assert forall|k: int| 0 <= k < t.len() && #[trigger] t[k].kind == TokenType::Number implies is_unsigned_decimal(
        t[k].lexeme,
    ) by {
        if k < a.len() {
            assert(t[k] == a[k]);
        } else {
            assert(t[k] == b[k - a.len()]);
        }
    }
}

proof fn lemma_number_numbers(s: Seq<char>, i: nat, line: nat, col: nat)
    requires
        i < s.len(),
        is_digit_char(s[i as int]),
    ensures
        numbers_are_decimals(number_step(s, i, line, col).0),
    decreases s.len() - i,
{
    let h = number_head(s, i, line, col);
    lemma_number_decimal(s, i);
    assert(numbers_are_decimals(h.0)) by {
        reveal(numbers_are_decimals);
        assert forall|m: int| 0 <= m < h.0.len() && #[trigger] h.0[m].kind == TokenType::Number implies m == 0 by {
            if m >= 1 {
                assert(h.0[m].kind != TokenType::Number);
            }
        }
    }
    if h.2 {
        lemma_number_numbers(s, h.1, line, (col + h.1 - i) as nat);
        lemma_concat_numbers(h.0, number_step(s, h.1, line, (col + h.1 - i) as nat).0);
    }
}

proof fn lemma_step_numbers(s: Seq<char>, i: nat, line: nat, col: nat)
    requires
        i < s.len(),
    ensures
        numbers_are_decimals(step(s, i, line, col).tokens),
{
    reveal(step);
    let c = s[i as int];
    if is_digit_char(c) && !(c == '*' || c == ';') && crate::lexer::punct_kind(c) is None && c != '.' {
        lemma_number_numbers(s, i, line, col);
    } else {
        assert(numbers_are_decimals(step(s, i, line, col).tokens)) by {
            reveal(numbers_are_decimals);
        }
    }
}

proof fn lemma_scan_numbers(s: Seq<char>, i: nat, line: nat, col: nat)
    ensures
        numbers_are_decimals(scan_from(s, i, line, col).tokens),
    decreases s.len() - i,
{
    if i >= s.len() {
        reveal(numbers_are_decimals);
    } else {
        let st = step(s, i, line, col);
        lemma_step_numbers(s, i, line, col);
        if !(st.next <= i || st.next > s.len() || crate::lexer::ends_with_end(st.tokens)) {
            lemma_scan_numbers(s, st.next, st.line, st.column);
            lemma_concat_numbers(st.tokens, scan_from(s, st.next, st.line, st.column).tokens);
        }
    }
}

/// The text of every number token of any source is an unsigned decimal:
/// digits, with at most one `.` between digits. A sign and an exponent are
/// tokens of their own, never part of a number's text.
pub proof fn lemma_number_tokens_are_decimals(s: Seq<char>)
    ensures
        numbers_are_decimals(lex_tokens(s)),
{
    lemma_scan_numbers(s, 0, 1, 1);
    let r = scan_from(s, 0, 1, 1);
    let eof = seq![tok(TokenType::Eof, r.line, r.column, seq![])];
    assert(numbers_are_decimals(eof)) by {
        reveal(numbers_are_decimals);
    }
    lemma_concat_numbers(r.tokens, eof);
    assert(lex_tokens(s) =~= r.tokens + eof);
}


proof fn lemma_cards_nonempty(t: Seq<SpecToken>)
    requires
        t.len() > 0,
    ensures
        cards_of(t).len() > 0,
    decreases t.len(),
{
    if t.len() > 1 {
        lemma_cards_nonempty(t.drop_last());
    }
}

/// The card rule, one token at a time: the end-of-file token, or the first token
/// of all, opens a card of its own; a `+` that begins a new line is dropped and
/// its line joins the last card; any other token that begins a new line opens a
/// new card; a token on the same line as the one before joins the last card.
/// Earlier cards never change but for that last one.
pub proof fn lemma_card_rule(t: Seq<SpecToken>, x: SpecToken)
    ensures
        ({
            let before = cards_of(t);
            let after = cards_of(t.push(x));
            if t.len() == 0 || x.kind == TokenType::Eof {
                after == before.push(seq![x])
            } else if x.line != t.last().line && x.kind == TokenType::Add {
                after == before
            } else if x.line != t.last().line {
                after == before.push(seq![x])
            } else {
                &&& before.len() > 0
                &&& after == before.update(before.len() - 1, before.last().push(x))
            }
        }),
{
    let u = t.push(x);
    assert(u.drop_last() =~= t);
    let k = u.len() - 1;
    assert(u[k] == x);
    if t.len() > 0 {
        assert(u[k - 1] == t.last());
        lemma_cards_nonempty(t);
    }
}

proof fn lemma_unresolved_excludes(refs: Seq<crate::parser::SpecRef>, frame: Seq<SpecSymbol>, n: Seq<char>)
    requires
        lookup_in(frame, n, SymbolType::Subcircuit) is Some,
    ensures
        forall|i: int| 0 <= i < unresolved(refs, frame).len() ==> #[trigger] unresolved(refs, frame)[i].name != n,
    decreases refs.len(),
{
    if refs.len() > 0 {
        lemma_unresolved_excludes(refs.drop_last(), frame, n);
        let rest = unresolved(refs.drop_last(), frame);
        let u = unresolved(refs, frame);
        if lookup_in(frame, refs.last().name, SymbolType::Subcircuit) is None {
            assert(refs.last().name != n);
            assert forall|i: int| 0 <= i < u.len() implies #[trigger] u[i].name != n by {
                if i < rest.len() {
                    assert(u[i] == rest[i]);
                }
            }
        }
    }
}

/// A reference to a subcircuit made inside a body is settled when the body
/// closes, not before: closing adds no error, the references that the body's
/// frame resolves (even by a definition later in that body) are dropped, and
/// the others pass, in order, to the enclosing frame. Undefined names are
/// reported only at the end of input (see `finish`).
pub proof fn lemma_references_wait_for_scope_end(st: PState, n: Seq<char>)
    requires
        state_wf(st),
        st.open.len() > 0,
        lookup_in(st.frames.last(), n, SymbolType::Subcircuit) is Some,
    ensures
        ({
            let r = close_scope(st);
            let left = unresolved(st.pending.last(), st.frames.last());
            &&& r.errors == st.errors
            &&& r.circuit == st.circuit
            &&& r.frames == st.frames.drop_last()
            &&& r.pending.last() == st.pending[st.pending.len() - 2] + left
            &&& forall|i: int| 0 <= i < left.len() ==> #[trigger] left[i].name != n
        }),
{
    lemma_unresolved_excludes(st.pending.last(), st.frames.last(), n);
}
} // verus!
