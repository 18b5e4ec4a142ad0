//! From a statement in words to a Boolean expression.
//!
//! The words of a statement that stand in double quotes name its variables;
//! the connectives `and`, `or` and `xor` that occur in it are its operators.
//! The variables are hidden behind their digests, and the expression over
//! them is wrapped as the single gate of a circuit description.

use crate::prf::{digest, hash};
use vstd::prelude::*;
use vstd::string::*;

verus! {

/// Whether `c` is white space, as `char::is_whitespace` has it.
pub uninterp spec fn is_whitespace(c: char) -> bool;

/// Asks `char::is_whitespace`.
///
/// Trusted: the answer is the one that [`is_whitespace`] names.
#[verifier::external_body]
fn char_is_whitespace(c: char) -> (b: bool)
    ensures
        b == is_whitespace(c),
{
    c.is_whitespace()
}

/// The characters of a string.
pub fn chars_of(s: &str) -> (chars: Vec<char>)
    ensures
        chars@ == s@,
{
    let mut chars: Vec<char> = Vec::new();
    for c in it: s.chars()
        invariant
            it.seq() == s@,
            chars@ == it.seq().take(it.index() as int),
    {
        chars.push(c);
        assert(chars@ =~= it.seq().take(it.index() + 1));
    }
    assert(chars@ =~= s@);
    chars
}

/// The words of a text: its longest runs of characters that are not white
/// space, in their order.
///
/// Read from the left, a character that is white space adds nothing, a
/// character after white space or at the start begins a word, and any other
/// character extends the last word.
pub open spec fn words(s: Seq<char>) -> Seq<Seq<char>>
    decreases s.len(),
{
    if s.len() == 0 {
        Seq::empty()
    } else if is_whitespace(s.last()) {
        words(s.drop_last())
    } else if s.len() == 1 || is_whitespace(s[s.len() - 2]) {
        words(s.drop_last()).push(seq![s.last()])
    } else {
        let before = words(s.drop_last());
        before.drop_last().push(before.last().push(s.last()))
    }
}

/// Whether a word begins and ends with a double quote.
pub open spec fn is_quoted(word: Seq<char>) -> bool {
    word.len() > 0 && word.first() == '"' && word.last() == '"'
}

/// A word without the double quotes at its end.
pub open spec fn trim_end(word: Seq<char>) -> Seq<char>
    decreases word.len(),
{
    if word.len() > 0 && word.last() == '"' {
        trim_end(word.drop_last())
    } else {
        word
    }
}

/// A word without the double quotes at its start.
pub open spec fn trim_start(word: Seq<char>) -> Seq<char>
    decreases word.len(),
{
    if word.len() > 0 && word.first() == '"' {
        trim_start(word.drop_first())
    } else {
        word
    }
}

/// A word without the double quotes at its start and at its end.
pub open spec fn unquoted(word: Seq<char>) -> Seq<char> {
    trim_start(trim_end(word))
}

/// The names of the variables among `words`: the quoted words, without
/// their quotes.
pub open spec fn variable_names(words: Seq<Seq<char>>) -> Seq<Seq<char>> {
    words.filter(|w: Seq<char>| is_quoted(w)).map_values(|w: Seq<char>| unquoted(w))
}

/// A variable of a statement.
#[derive(Debug, Clone, PartialEq, Eq, Hash)]
pub struct Variable(String);

impl View for Variable {
    type V = Seq<char>;

    closed spec fn view(&self) -> Seq<char> {
        self.0@
    }
}

impl Variable {
    /// The name of the variable.
    pub fn name(&self) -> (name: &String)
        ensures
            name@ == self@,
    {
        &self.0
    }
}

/// The names of a sequence of variables.
pub open spec fn names_of(vars: Seq<Variable>) -> Seq<Seq<char>> {
    Seq::new(vars.len(), |i: int| vars[i]@)
}

/// Computes [`unquoted`] on the characters `from..to` of `text`, as a range
/// of `text`.
fn unquoted_range(text: &Vec<char>, from: usize, to: usize) -> (range: (usize, usize))
    requires
        from <= to <= text@.len(),
    ensures
        from <= range.0 <= range.1 <= to,
        text@.subrange(range.0 as int, range.1 as int) == unquoted(
            text@.subrange(from as int, to as int),
        ),
{
    let mut end = to;
    while end > from && text[end - 1] == '"'
        invariant
            from <= end <= to,
            to <= text@.len(),
            trim_end(text@.subrange(from as int, end as int)) == trim_end(
                text@.subrange(from as int, to as int),
            ),
        decreases end - from,
    {
        assert(text@.subrange(from as int, end as int).drop_last() =~= text@.subrange(
            from as int,
            end - 1,
        ));
        end -= 1;
    }
    let mut start = from;
    while start < end && text[start] == '"'
        invariant
            from <= start <= end,
            end <= text@.len(),
            trim_start(text@.subrange(start as int, end as int)) == trim_start(
                text@.subrange(from as int, end as int),
            ),
        decreases end - start,
    {
        assert(text@.subrange(start as int, end as int).drop_first() =~= text@.subrange(
            start + 1,
            end as int,
        ));
        start += 1;
    }
    (start, end)
}

/// The names with the name of `word` added, where `word` is quoted.
pub open spec fn with_word(names: Seq<Seq<char>>, word: Seq<char>) -> Seq<Seq<char>> {
    if is_quoted(word) {
        names.push(unquoted(word))
    } else {
        names
    }
}

proof fn lemma_names_with_word(words: Seq<Seq<char>>, word: Seq<char>)
    ensures
        variable_names(words.push(word)) == with_word(variable_names(words), word),
{
    let quoted = |w: Seq<char>| is_quoted(w);
    let strip = |w: Seq<char>| unquoted(w);
    words.lemma_filter_push(word, quoted);
    if is_quoted(word) {
        words.filter(quoted).lemma_push_map_commute(strip, word);
    }
}

/// Adds the variable that the word `from..to` of `input` names, if it is
/// quoted.
fn note_word(input: &str, text: &Vec<char>, from: usize, to: usize, vars: &mut Vec<Variable>)
    requires
        text@ == input@,
        from < to <= text@.len(),
    ensures
        names_of(final(vars)@) == with_word(
            names_of(old(vars)@),
            text@.subrange(from as int, to as int),
        ),
{
    let ghost word = text@.subrange(from as int, to as int);
    assert(word.first() == text@[from as int] && word.last() == text@[to - 1]);
    if text[from] == '"' && text[to - 1] == '"' {
        let range = unquoted_range(text, from, to);
        let name = String::from_str(input.substring_char(range.0, range.1));
        let ghost before = names_of(vars@);
        vars.push(Variable(name));
        assert(names_of(vars@) =~= before.push(unquoted(word)));
    }
}

/// The variables of a statement: its quoted words, without their quotes.
pub fn extractor_v(input: &str) -> (vars: Vec<Variable>)
    ensures
        names_of(vars@) == variable_names(words(input@)),
{
    let text = chars_of(input);
    let mut vars: Vec<Variable> = Vec::new();
    let mut in_word = false;
    let mut start: usize = 0;
    let mut i: usize = 0;
    assert(names_of(vars@) =~= variable_names(words(text@.take(0))));
    while i < text.len()
        invariant
            i <= text@.len(),
            text@ == input@,
            in_word ==> {
                &&& start < i
                &&& !is_whitespace(text@[i - 1])
                &&& words(text@.take(i as int)).len() > 0
                &&& words(text@.take(i as int)).last() == text@.subrange(start as int, i as int)
                &&& names_of(vars@) == variable_names(words(text@.take(i as int)).drop_last())
            },
            !in_word ==> {
                &&& i == 0 || is_whitespace(text@[i - 1])
                &&& names_of(vars@) == variable_names(words(text@.take(i as int)))
            },
        decreases text@.len() - i,
    {
        let ghost before = words(text@.take(i as int));
        proof {
            assert(text@.take(i + 1).drop_last() =~= text@.take(i as int));
            assert(text@.take(i + 1).last() == text@[i as int]);
            if i > 0 {
                assert(text@.take(i + 1)[i - 1] == text@[i - 1]);
            }
        }
        if char_is_whitespace(text[i]) {
            if in_word {
                proof {
                    assert(before.drop_last().push(before.last()) =~= before);
                    lemma_names_with_word(before.drop_last(), before.last());
                }
                note_word(input, &text, start, i, &mut vars);
                in_word = false;
            }
        } else {
            if in_word {
                proof {
                    let after = words(text@.take(i + 1));
                    assert(after.drop_last() =~= before.drop_last());
                    assert(text@.subrange(start as int, i as int).push(text@[i as int])
                        =~= text@.subrange(start as int, i + 1));
                }
            } else {
                start = i;
                in_word = true;
                proof {
                    let after = words(text@.take(i + 1));
                    assert(after.drop_last() =~= before);
                    assert(seq![text@[i as int]] =~= text@.subrange(i as int, i + 1));
                }
            }
        }
        i += 1;
    }
    proof {
        assert(text@.take(i as int) =~= text@);
    }
    if in_word {
        proof {
            let all = words(text@);
            assert(all.drop_last().push(all.last()) =~= all);
            lemma_names_with_word(all.drop_last(), all.last());
        }
        note_word(input, &text, start, i, &mut vars);
    }
    vars
}

/// A connective of a statement.
#[derive(Debug, Clone, Copy, PartialEq, Eq, Structural)]
pub enum Operator {
    And,
    Or,
    Xor,
}

/// Whether `pattern` occurs in `text` as a run of consecutive characters.
pub open spec fn occurs(text: Seq<char>, pattern: Seq<char>) -> bool {
    exists|i: int|
        0 <= i && i + pattern.len() <= text.len() && #[trigger] text.subrange(
            i,
            i + pattern.len(),
        ) == pattern
}

/// The operators of a statement: `And` if `and` occurs in it, then `Or` if
/// `or` occurs in it, then `Xor` if `xor` occurs in it.
pub open spec fn operators(text: Seq<char>) -> Seq<Operator> {
    (if occurs(text, seq!['a', 'n', 'd']) {
        seq![Operator::And]
    } else {
        Seq::empty()
    }) + (if occurs(text, seq!['o', 'r']) {
        seq![Operator::Or]
    } else {
        Seq::empty()
    }) + (if occurs(text, seq!['x', 'o', 'r']) {
        seq![Operator::Xor]
    } else {
        Seq::empty()
    })
}

/// Computes [`occurs`].
pub fn occurs_in(text: &Vec<char>, pattern: &Vec<char>) -> (found: bool)
    ensures
        found == occurs(text@, pattern@),
{
    if pattern.len() > text.len() {
        return false;
    }
    if pattern.len() == 0 {
        assert(text@.subrange(0int, 0int + pattern@.len()) =~= pattern@);
        return true;
    }
    let last = text.len() - pattern.len();
    let mut i: usize = 0;
    while i <= last
        invariant
            i <= last + 1,
            0 < pattern@.len() <= text@.len(),
            text@.len() <= usize::MAX,
            last == text@.len() - pattern@.len(),
            forall|k: int|
                0 <= k < i ==> #[trigger] text@.subrange(k, k + pattern@.len()) != pattern@,
        decreases last + 1 - i,
    {
        let mut j: usize = 0;
        while j < pattern.len() && text[i + j] == pattern[j]
            invariant
                j <= pattern@.len(),
                i + pattern@.len() <= text@.len(),
                text@.len() <= usize::MAX,
                forall|k: int| 0 <= k < j ==> text@[i + k] == pattern@[k],
            decreases pattern@.len() - j,
        {
            j += 1;
        }
        let ghost here = text@.subrange(i as int, i + pattern@.len());
        if j == pattern.len() {
            assert(here =~= pattern@);
            return true;
        }
        assert(here[j as int] != pattern@[j as int]);
        i += 1;
    }
    false
}

/// The operators of a statement: computes [`operators`].
pub fn extractor_o(input: &str) -> (ops: Vec<Operator>)
    ensures
        ops@ == operators(input@),
{
    let text = chars_of(input);
    let and: Vec<char> = vec!['a', 'n', 'd'];
    let or: Vec<char> = vec!['o', 'r'];
    let xor: Vec<char> = vec!['x', 'o', 'r'];
    assert(and@ =~= seq!['a', 'n', 'd'] && or@ =~= seq!['o', 'r'] && xor@ =~= seq!['x', 'o', 'r']);
    let mut ops: Vec<Operator> = Vec::new();
    if occurs_in(&text, &and) {
        ops.push(Operator::And);
    }
    if occurs_in(&text, &or) {
        ops.push(Operator::Or);
    }
    if occurs_in(&text, &xor) {
        ops.push(Operator::Xor);
    }
    assert(ops@ =~= operators(input@));
    ops
}

/// The views of a sequence of strings.
pub open spec fn string_views(strings: Seq<String>) -> Seq<Seq<char>> {
    Seq::new(strings.len(), |i: int| strings[i]@)
}

/// The hexadecimal digit of a number below 16, in lower case.
pub open spec fn hex_digit(n: u8) -> char {
    match n {
        0 => '0',
        1 => '1',
        2 => '2',
        3 => '3',
        4 => '4',
        5 => '5',
        6 => '6',
        7 => '7',
        8 => '8',
        9 => '9',
        10 => 'a',
        11 => 'b',
        12 => 'c',
        13 => 'd',
        14 => 'e',
        _ => 'f',
    }
}

/// Bytes in hexadecimal: two digits for each byte, the higher first.
pub open spec fn hex_of(bytes: Seq<u8>) -> Seq<char>
    decreases bytes.len(),
{
    if bytes.len() == 0 {
        Seq::empty()
    } else {
        hex_of(bytes.drop_last()).push(hex_digit(bytes.last() >> 4)).push(
            hex_digit(bytes.last() & 0xf),
        )
    }
}

/// What stands for a variable in an expression: the digest of the UTF-8
/// bytes of its name, in hexadecimal.
pub open spec fn hidden(name: Seq<char>) -> Seq<char> {
    hex_of(digest(vstd::utf8::encode_utf8(name)))
}

/// Computes [`hex_digit`], as a string of one character.
fn hex_digit_of(n: u8) -> (digit: &'static str)
    ensures
        digit@ == seq![hex_digit(n)],
{
    proof {
        reveal_strlit("0");
        reveal_strlit("1");
        reveal_strlit("2");
        reveal_strlit("3");
        reveal_strlit("4");
        reveal_strlit("5");
        reveal_strlit("6");
        reveal_strlit("7");
        reveal_strlit("8");
        reveal_strlit("9");
        reveal_strlit("a");
        reveal_strlit("b");
        reveal_strlit("c");
        reveal_strlit("d");
        reveal_strlit("e");
        reveal_strlit("f");
    }
    let digit = match n {
        0 => "0",
        1 => "1",
        2 => "2",
        3 => "3",
        4 => "4",
        5 => "5",
        6 => "6",
        7 => "7",
        8 => "8",
        9 => "9",
        10 => "a",
        11 => "b",
        12 => "c",
        13 => "d",
        14 => "e",
        _ => "f",
    };
    assert(digit@ =~= seq![hex_digit(n)]);
    digit
}

/// Computes [`hex_of`].
pub fn to_hex(bytes: &[u8]) -> (hex: String)
    ensures
        hex@ == hex_of(bytes@),
{
    let mut hex = String::new();
    let mut i: usize = 0;
    assert(bytes@.take(0) =~= Seq::empty());
    while i < bytes.len()
        invariant
            i <= bytes@.len(),
            hex@ == hex_of(bytes@.take(i as int)),
        decreases bytes@.len() - i,
    {
        let byte = bytes[i];
        proof {
            assert(bytes@.take(i + 1).drop_last() =~= bytes@.take(i as int));
            assert(bytes@.take(i + 1).last() == byte);
        }
        let ghost before = hex@;
        hex.append(hex_digit_of(byte >> 4));
        hex.append(hex_digit_of(byte & 0xf));
        assert(hex@ =~= before.push(hex_digit(byte >> 4)).push(hex_digit(byte & 0xf)));
        i += 1;
    }
    assert(bytes@.take(i as int) =~= bytes@);
    hex
}

/// Hides each variable behind the digest of its name: computes [`hidden`]
/// for each of them.
pub fn hash_variables(vars: &Vec<Variable>) -> (hashed: Vec<String>)
    ensures
        string_views(hashed@) == names_of(vars@).map_values(|name: Seq<char>| hidden(name)),
{
    let mut hashed: Vec<String> = Vec::new();
    let mut i: usize = 0;
    while i < vars.len()
        invariant
            i <= vars@.len(),
            hashed@.len() == i,
            forall|j: int| 0 <= j < i ==> (#[trigger] hashed@[j])@ == hidden(vars@[j]@),
        decreases vars@.len() - i,
    {
        let found = hash(vars[i].0.as_str().as_bytes());
        hashed.push(to_hex(found.as_slice()));
        i += 1;
    }
    assert(string_views(hashed@) =~= names_of(vars@).map_values(|name: Seq<char>| hidden(name)));
    hashed
}

/// How an operator is written in an expression.
pub open spec fn symbol(op: Operator) -> Seq<char> {
    match op {
        Operator::And => seq!['&', '&'],
        Operator::Or => seq!['|', '|'],
        Operator::Xor => seq!['^'],
    }
}

/// The expression over `vars` and `ops`: each variable in round brackets,
/// and after the variable at position `i` the operator at position `i`, set
/// off by blanks, as far as there are operators.
pub open spec fn expression(vars: Seq<Seq<char>>, ops: Seq<Operator>) -> Seq<char>
    decreases vars.len(),
{
    if vars.len() == 0 {
        Seq::empty()
    } else {
        let i = vars.len() - 1;
        expression(vars.drop_last(), ops) + seq!['('] + vars.last() + seq![')'] + (if i
            < ops.len() {
            seq![' '] + symbol(ops[i]) + seq![' ']
        } else {
            Seq::empty()
        })
    }
}

/// The variables and operators of a statement, the variables behind their
/// digests.
#[derive(Debug)]
pub struct LogicExpression {
    variables: Vec<String>,
    operators: Vec<Operator>,
}

impl LogicExpression {
    /// The variables, as they stand in the expression.
    pub closed spec fn spec_variables(self) -> Seq<Seq<char>> {
        string_views(self.variables@)
    }

    /// The operators.
    pub closed spec fn spec_operators(self) -> Seq<Operator> {
        self.operators@
    }

    /// An expression of the given variables and operators.
    pub fn new(variables: Vec<String>, operators: Vec<Operator>) -> (e: LogicExpression)
        ensures
            e.spec_variables() == string_views(variables@),
            e.spec_operators() == operators@,
    {
        LogicExpression { variables, operators }
    }

    /// The variables, as they stand in the expression.
    pub fn variables(&self) -> (v: &Vec<String>)
        ensures
            string_views(v@) == self.spec_variables(),
    {
        &self.variables
    }

    /// The operators.
    pub fn operators(&self) -> (ops: &Vec<Operator>)
        ensures
            ops@ == self.spec_operators(),
    {
        &self.operators
    }
}

/// Writes out the expression over `vars` and `ops`: computes
/// [`expression`].
pub fn build_regexp(vars: &Vec<String>, ops: &Vec<Operator>) -> (pattern: String)
    ensures
        pattern@ == expression(string_views(vars@), ops@),
{
    proof {
        reveal_strlit("(");
        reveal_strlit(")");
        reveal_strlit(" ");
        reveal_strlit("&&");
        reveal_strlit("||");
        reveal_strlit("^");
    }
    let ghost names = string_views(vars@);
    let mut pattern = String::new();
    let mut i: usize = 0;
    assert(names.take(0) =~= Seq::empty());
    while i < vars.len()
        invariant
            i <= vars@.len(),
            names == string_views(vars@),
            pattern@ == expression(names.take(i as int), ops@),
            "("@ == seq!['('],
            ")"@ == seq![')'],
            " "@ == seq![' '],
            "&&"@ == seq!['&', '&'],
            "||"@ == seq!['|', '|'],
            "^"@ == seq!['^'],
        decreases vars@.len() - i,
    {
        proof {
            assert(names.take(i + 1).drop_last() =~= names.take(i as int));
            assert(names.take(i + 1).last() == vars@[i as int]@);
        }
        pattern.append("(");
        pattern.append(vars[i].as_str());
        pattern.append(")");
        if i < ops.len() {
            let sym = match ops[i] {
                Operator::And => "&&",
                Operator::Or => "||",
                Operator::Xor => "^",
            };
            assert(sym@ == symbol(ops@[i as int]));
            pattern.append(" ");
            pattern.append(sym);
            pattern.append(" ");
        }
        assert(pattern@ =~= expression(names.take(i + 1), ops@));
        i += 1;
    }
    assert(names.take(i as int) =~= names);
    pattern
}

/// A description of a Boolean circuit: one text for each gate.
#[derive(Debug)]
pub struct BooleanCircuit {
    gates: Vec<String>,
}

/// An expression as the description of a gate: `circuit(`, the expression,
/// and `)`.
pub open spec fn described(expression: Seq<char>) -> Seq<char> {
    seq!['c', 'i', 'r', 'c', 'u', 'i', 't', '('] + expression + seq![')']
}

impl BooleanCircuit {
    /// The descriptions of the gates.
    pub closed spec fn descriptions(self) -> Seq<Seq<char>> {
        string_views(self.gates@)
    }

    /// The descriptions of the gates.
    pub fn gates(&self) -> (gates: &Vec<String>)
        ensures
            string_views(gates@) == self.descriptions(),
    {
        &self.gates
    }
}

/// Wraps an expression as the one gate of a circuit description.
pub fn circuit_gen(expression: &str) -> (circuit: BooleanCircuit)
    ensures
        circuit.descriptions() == seq![described(expression@)],
{
    proof {
        reveal_strlit("circuit(");
        reveal_strlit(")");
    }
    let mut gate = String::from_str("circuit(");
    gate.append(expression);
    gate.append(")");
    assert(gate@ =~= described(expression@));
    let gates: Vec<String> = vec![gate];
    assert(string_views(gates@) =~= seq![described(expression@)]);
    BooleanCircuit { gates }
}

/// Hands the circuit on as it is: no gate is merged or removed.
pub fn karnaugh_optimize(circuit: BooleanCircuit) -> (optimized: BooleanCircuit)
    ensures
        optimized == circuit,
{
    circuit
}

/// The circuit description of a statement: the expression over its hidden
/// variables and its operators, as a single gate.
pub open spec fn compiled(statement: Seq<char>) -> Seq<Seq<char>> {
    seq![
        described(
            expression(
                variable_names(words(statement)).map_values(|name: Seq<char>| hidden(name)),
                operators(statement),
            ),
        ),
    ]
}

/// Compiles a statement into the description of a circuit: computes
/// [`compiled`].
pub fn polylithic_syntax_gen(input: &str) -> (circuit: BooleanCircuit)
    ensures
        circuit.descriptions() == compiled(input@),
{
    let vars = extractor_v(input);
    let ops = extractor_o(input);
    let hashed_vars = hash_variables(&vars);
    let parsed = LogicExpression::new(hashed_vars, ops);
    let regexp_expr = build_regexp(parsed.variables(), parsed.operators());
    let raw_circuit = circuit_gen(regexp_expr.as_str());
    karnaugh_optimize(raw_circuit)
}

} // verus!
