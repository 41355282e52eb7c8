//! The query parser. A query is a list of clauses separated by white space;
//! a clause is a term, a quoted phrase, or either of them behind a field
//! name and a colon. A query matches a document when one of its clauses
//! does. Anything else is a syntax error at a byte offset of the query.

use crate::schema::{FieldView, Schema, bytes_equal};
use crate::tokenizer::{is_space, is_space_byte, split_words, whitespace_spans};
use vstd::prelude::*;
use vstd::slice::{slice_subrange, slice_to_vec};
use vstd::string::*;
use vstd::utf8::*;

verus! {

/// The byte that opens and closes a phrase.
pub const QUOTE: u8 = 0x22;

/// The byte between a field name and its term or phrase.
pub const COLON: u8 = 0x3a;

/// Why a query was refused.
#[derive(Clone, Copy, PartialEq, Eq, Debug, Structural)]
pub enum ParseError {
    /// The query names a field that the schema does not have.
    UnknownField,
    /// The query does not follow the grammar at this byte offset.
    Syntax(usize),
}

/// A clause as written: the bytes of its field name, if it has one, and its
/// terms. One term is a term query, several are a phrase.
#[derive(Debug, PartialEq, Eq)]
pub struct RawClause {
    pub field: Option<Vec<u8>>,
    pub terms: Vec<Vec<u8>>,
}

/// The mathematical value of a [`RawClause`].
pub struct RawClauseView {
    pub field: Option<Seq<u8>>,
    pub terms: Seq<Seq<u8>>,
}

/// The values of a list of byte strings.
pub open spec fn byte_views(items: Seq<Vec<u8>>) -> Seq<Seq<u8>> {
    Seq::new(items.len(), |i: int| items[i]@)
}

impl View for RawClause {
    type V = RawClauseView;

    open spec fn view(&self) -> RawClauseView {
        RawClauseView {
            field: match self.field {
                Some(name) => Some(name@),
                None => None,
            },
            terms: byte_views(self.terms@),
        }
    }
}

/// The values of a list of clauses as written.
pub open spec fn raw_views(clauses: Seq<RawClause>) -> Seq<RawClauseView> {
    Seq::new(clauses.len(), |i: int| clauses[i]@)
}

/// A clause of a parsed query: the number of its field, if it names one,
/// and its terms.
#[derive(Debug, PartialEq, Eq)]
pub struct Clause {
    pub field: Option<usize>,
    pub terms: Vec<Vec<u8>>,
}

/// The mathematical value of a [`Clause`].
pub struct ClauseView {
    pub field: Option<int>,
    pub terms: Seq<Seq<u8>>,
}

impl View for Clause {
    type V = ClauseView;

    open spec fn view(&self) -> ClauseView {
        ClauseView {
            field: match self.field {
                Some(field) => Some(field as int),
                None => None,
            },
            terms: byte_views(self.terms@),
        }
    }
}

/// A parsed query: the disjunction of its clauses.
#[derive(Debug, PartialEq, Eq)]
pub struct Query {
    pub clauses: Vec<Clause>,
}

impl View for Query {
    type V = Seq<ClauseView>;

    open spec fn view(&self) -> Seq<ClauseView> {
        Seq::new(self.clauses@.len(), |i: int| self.clauses@[i]@)
    }
}

/// A byte that can stand in a term outside quotes.
pub open spec fn is_term_byte(b: u8) -> bool {
    !is_space(b) && b != QUOTE && b != COLON
}

/// The end of the run of term bytes that starts at `i`.
pub open spec fn term_end(bytes: Seq<u8>, i: int) -> int
    decreases bytes.len() - i,
{
    if i < 0 || i >= bytes.len() || !is_term_byte(bytes[i]) {
        i
    } else {
        term_end(bytes, i + 1)
    }
}

/// The first quote at or behind `i`, or the end of the query.
pub open spec fn quote_end(bytes: Seq<u8>, i: int) -> int
    decreases bytes.len() - i,
{
    if i < 0 || i >= bytes.len() || bytes[i] == QUOTE {
        i
    } else {
        quote_end(bytes, i + 1)
    }
}

/// The words of a phrase: the runs of its bytes that are no white space.
pub open spec fn phrase_terms(content: Seq<u8>) -> Seq<Seq<u8>> {
    let spans = whitespace_spans(content);
    Seq::new(spans.len(), |k: int| content.subrange(spans[k].0 as int, spans[k].1 as int))
}

/// The outcome of reading one clause: the clause and the offset behind it,
/// or the offset of a syntax error.
pub enum Step {
    Clause(RawClauseView, int),
    Error(int),
}

/// Reads the phrase whose opening quote stands at `open`. The phrase has to
/// be closed, to hold at least one word, and to be followed by white space
/// or the end of the query.
pub open spec fn phrase_at(bytes: Seq<u8>, open: int, field: Option<Seq<u8>>) -> Step {
    let close = quote_end(bytes, open + 1);
    if close >= bytes.len() {
        Step::Error(open)
    } else {
        let terms = phrase_terms(bytes.subrange(open + 1, close));
        if terms.len() == 0 {
            Step::Error(open)
        } else if close + 1 < bytes.len() && !is_space(bytes[close + 1]) {
            Step::Error(close + 1)
        } else {
            Step::Clause(RawClauseView { field, terms }, close + 1)
        }
    }
}

/// Reads the clause that starts at `i`, a byte that is no white space.
pub open spec fn clause_at(bytes: Seq<u8>, i: int) -> Step {
    if bytes[i] == QUOTE {
        phrase_at(bytes, i, None)
    } else {
        let end = term_end(bytes, i);
        if end == i {
            Step::Error(i)
        } else if end < bytes.len() && bytes[end] == COLON {
            let field = Some(bytes.subrange(i, end));
            let start = end + 1;
            if start < bytes.len() && bytes[start] == QUOTE {
                phrase_at(bytes, start, field)
            } else {
                let stop = term_end(bytes, start);
                if stop == start {
                    Step::Error(end)
                } else if stop < bytes.len() && !is_space(bytes[stop]) {
                    Step::Error(stop)
                } else {
                    Step::Clause(
                        RawClauseView { field, terms: seq![bytes.subrange(start, stop)] },
                        stop,
                    )
                }
            }
        } else if end < bytes.len() && bytes[end] == QUOTE {
            Step::Error(end)
        } else {
            Step::Clause(RawClauseView { field: None, terms: seq![bytes.subrange(i, end)] }, end)
        }
    }
}

proof fn lemma_term_end_bounds(bytes: Seq<u8>, i: int)
    requires
        0 <= i <= bytes.len(),
    ensures
        i <= term_end(bytes, i) <= bytes.len(),
        term_end(bytes, i) < bytes.len() ==> !is_term_byte(bytes[term_end(bytes, i)]),
        forall|k: int| i <= k < term_end(bytes, i) ==> is_term_byte(#[trigger] bytes[k]),
    decreases bytes.len() - i,
{
    if i < bytes.len() && is_term_byte(bytes[i]) {
        lemma_term_end_bounds(bytes, i + 1);
    }
}

proof fn lemma_quote_end_bounds(bytes: Seq<u8>, i: int)
    requires
        0 <= i <= bytes.len(),
    ensures
        i <= quote_end(bytes, i) <= bytes.len(),
        quote_end(bytes, i) < bytes.len() ==> bytes[quote_end(bytes, i)] == QUOTE,
    decreases bytes.len() - i,
{
    if i < bytes.len() && bytes[i] != QUOTE {
        lemma_quote_end_bounds(bytes, i + 1);
    }
}

/// A clause ends behind the byte it starts at.
pub proof fn lemma_clause_advances(bytes: Seq<u8>, i: int)
    requires
        0 <= i < bytes.len(),
    ensures
        match clause_at(bytes, i) {
            Step::Clause(_, next) => i < next <= bytes.len(),
            Step::Error(at) => i <= at < bytes.len(),
        },
{
    lemma_term_end_bounds(bytes, i);
    lemma_quote_end_bounds(bytes, i + 1);
    let end = term_end(bytes, i);
    if bytes[i] != QUOTE && end < bytes.len() && bytes[end] == COLON {
        lemma_term_end_bounds(bytes, end + 1);
        if end + 1 < bytes.len() {
            lemma_quote_end_bounds(bytes, end + 2);
        }
    }
}

/// Reads the clauses of the query from offset `i` on: all of them, or the
/// offset of the first syntax error.
pub open spec fn clauses_from(bytes: Seq<u8>, i: int) -> Result<Seq<RawClauseView>, int>
    decreases bytes.len() - i,
{
    if i < 0 || i >= bytes.len() {
        Ok(seq![])
    } else if is_space(bytes[i]) {
        clauses_from(bytes, i + 1)
    } else {
        proof {
            lemma_clause_advances(bytes, i);
        }
        match clause_at(bytes, i) {
            Step::Error(at) => Err(at),
            Step::Clause(clause, next) => match clauses_from(bytes, next) {
                Err(at) => Err(at),
                Ok(rest) => Ok(seq![clause] + rest),
            },
        }
    }
}

/// The number of the field whose name has the UTF-8 encoding `name`, if the
/// schema has one.
pub open spec fn field_named(schema: Seq<FieldView>, name: Seq<u8>) -> Option<int> {
    if exists|i: int| 0 <= i < schema.len() && encode_utf8((#[trigger] schema[i]).name) == name {
        Some(choose|i: int| 0 <= i < schema.len() && encode_utf8((#[trigger] schema[i]).name) == name)
    } else {
        None
    }
}

/// The clause names no field, or one that the schema has.
pub open spec fn clause_known(schema: Seq<FieldView>, clause: RawClauseView) -> bool {
    clause.field is Some ==> field_named(schema, clause.field->0) is Some
}

/// The clause with its field name replaced by the field's number.
pub open spec fn resolved(schema: Seq<FieldView>, clause: RawClauseView) -> ClauseView {
    ClauseView {
        field: match clause.field {
            Some(name) => field_named(schema, name),
            None => None,
        },
        terms: clause.terms,
    }
}

/// What a query string means: its clauses with their fields resolved, or
/// the reason for which it is refused. The grammar is checked first; a query
/// without any clause is a syntax error at its end.
pub open spec fn parsed(schema: Seq<FieldView>, bytes: Seq<u8>) -> Result<Seq<ClauseView>, ParseError> {
    match clauses_from(bytes, 0) {
        Err(at) => Err(ParseError::Syntax(at as usize)),
        Ok(clauses) => if clauses.len() == 0 {
            Err(ParseError::Syntax(bytes.len() as usize))
        } else if forall|k: int| 0 <= k < clauses.len() ==> clause_known(schema, #[trigger] clauses[k]) {
            Ok(Seq::new(clauses.len(), |k: int| resolved(schema, clauses[k])))
        } else {
            Err(ParseError::UnknownField)
        },
    }
}

fn is_term(b: u8) -> (r: bool)
    ensures
        r == is_term_byte(b),
{
    !is_space_byte(b) && b != QUOTE && b != COLON
}

fn scan_term(bytes: &[u8], i: usize) -> (end: usize)
    requires
        i <= bytes.len(),
    ensures
        end == term_end(bytes@, i as int),
        i <= end <= bytes.len(),
{
    let mut j = i;
    while j < bytes.len() && is_term(bytes[j])
        invariant
            i <= j <= bytes.len(),
            term_end(bytes@, i as int) == term_end(bytes@, j as int),
        decreases bytes.len() - j,
    {
        j = j + 1;
    }
    j
}

fn scan_quote(bytes: &[u8], i: usize) -> (end: usize)
    requires
        i <= bytes.len(),
    ensures
        end == quote_end(bytes@, i as int),
        i <= end <= bytes.len(),
{
    let mut j = i;
    while j < bytes.len() && bytes[j] != QUOTE
        invariant
            i <= j <= bytes.len(),
            quote_end(bytes@, i as int) == quote_end(bytes@, j as int),
        decreases bytes.len() - j,
    {
        j = j + 1;
    }
    j
}

fn copy_range(bytes: &[u8], from: usize, to: usize) -> (out: Vec<u8>)
    requires
        from <= to <= bytes.len(),
    ensures
        out@ == bytes@.subrange(from as int, to as int),
{
    slice_to_vec(slice_subrange(bytes, from, to))
}

fn split_phrase(content: &[u8]) -> (terms: Vec<Vec<u8>>)
    ensures
        byte_views(terms@) == phrase_terms(content@),
{
    let spans = split_words(content);
    let mut terms: Vec<Vec<u8>> = Vec::new();
    let mut k: usize = 0;
    while k < spans.len()
        invariant
            k <= spans.len(),
            terms.len() == k,
            spans@ == whitespace_spans(content@),
            forall|j: int|
                0 <= j < spans.len() ==> (#[trigger] spans[j]).0 < spans[j].1 <= content.len(),
            forall|j: int|
                0 <= j < k ==> (#[trigger] terms[j])@ == content@.subrange(
                    spans[j].0 as int,
                    spans[j].1 as int,
                ),
        decreases spans.len() - k,
    {
        let span = spans[k];
        terms.push(copy_range(content, span.0, span.1));
        k = k + 1;
    }
    terms
}

/// The outcome of reading one clause in executable form.
enum Read {
    Clause(RawClause, usize),
    Error(usize),
}

impl Read {
    spec fn step(self) -> Step {
        match self {
            Read::Clause(clause, next) => Step::Clause(clause@, next as int),
            Read::Error(at) => Step::Error(at as int),
        }
    }
}

fn read_phrase(bytes: &[u8], open: usize, field: Option<Vec<u8>>) -> (r: Read)
    requires
        open < bytes.len(),
    ensures
        r.step() == phrase_at(
            bytes@,
            open as int,
            match field {
                Some(name) => Some(name@),
                None => None,
            },
        ),
{
    let close = scan_quote(bytes, open + 1);
    if close >= bytes.len() {
        return Read::Error(open);
    }
    let terms = split_phrase(slice_subrange(bytes, open + 1, close));
    if terms.len() == 0 {
        Read::Error(open)
    } else if close + 1 < bytes.len() && !is_space_byte(bytes[close + 1]) {
        Read::Error(close + 1)
    } else {
        Read::Clause(RawClause { field, terms }, close + 1)
    }
}

fn read_clause(bytes: &[u8], i: usize) -> (r: Read)
    requires
        i < bytes.len(),
    ensures
        r.step() == clause_at(bytes@, i as int),
{
    if bytes[i] == QUOTE {
        return read_phrase(bytes, i, None);
    }
    let end = scan_term(bytes, i);
    if end == i {
        Read::Error(i)
    } else if end < bytes.len() && bytes[end] == COLON {
        let name = copy_range(bytes, i, end);
        let start = end + 1;
        if start < bytes.len() && bytes[start] == QUOTE {
            read_phrase(bytes, start, Some(name))
        } else {
            let stop = scan_term(bytes, start);
            if stop == start {
                Read::Error(end)
            } else if stop < bytes.len() && !is_space_byte(bytes[stop]) {
                Read::Error(stop)
            } else {
                let term = copy_range(bytes, start, stop);
                let terms = vec![term];
                assert(byte_views(terms@) =~= seq![bytes@.subrange(start as int, stop as int)]);
                Read::Clause(RawClause { field: Some(name), terms }, stop)
            }
        }
    } else if end < bytes.len() && bytes[end] == QUOTE {
        Read::Error(end)
    } else {
        let term = copy_range(bytes, i, end);
        let terms = vec![term];
        assert(byte_views(terms@) =~= seq![bytes@.subrange(i as int, end as int)]);
        Read::Clause(RawClause { field: None, terms }, end)
    }
}

/// Every clause holds at least one term.
pub open spec fn clauses_have_terms(clauses: Seq<RawClauseView>) -> bool {
    forall|k: int| 0 <= k < clauses.len() ==> (#[trigger] clauses[k]).terms.len() > 0
}

/// Reads the clauses of a query, or finds the offset of its first syntax
/// error.
pub fn read_clauses(bytes: &[u8]) -> (r: Result<Vec<RawClause>, usize>)
    ensures
        match r {
            Ok(clauses) => clauses_from(bytes@, 0) == Ok::<Seq<RawClauseView>, int>(
                raw_views(clauses@),
            ) && clauses_have_terms(raw_views(clauses@)),
            Err(at) => clauses_from(bytes@, 0) == Err::<Seq<RawClauseView>, int>(at as int),
        },
{
    let mut clauses: Vec<RawClause> = Vec::new();
    let mut i: usize = 0;
    while i < bytes.len()
        invariant
            i <= bytes.len(),
            clauses_have_terms(raw_views(clauses@)),
            clauses_from(bytes@, 0) == match clauses_from(bytes@, i as int) {
                Ok(rest) => Ok::<Seq<RawClauseView>, int>(raw_views(clauses@) + rest),
                Err(at) => Err(at),
            },
        decreases bytes.len() - i,
    {
        if is_space_byte(bytes[i]) {
            i = i + 1;
        } else {
            proof {
                lemma_clause_advances(bytes@, i as int);
            }
            match read_clause(bytes, i) {
                Read::Error(at) => {
                    return Err(at);
                },
                Read::Clause(clause, next) => {
                    let ghost before = raw_views(clauses@);
                    clauses.push(clause);
                    proof {
                        assert(raw_views(clauses@) =~= before.push(clause@));
                        match clauses_from(bytes@, next as int) {
                            Ok(rest) => {
                                assert(before + (seq![clause@] + rest) =~= raw_views(clauses@)
                                    + rest);
                            },
                            Err(_) => {},
                        }
                    }
                    i = next;
                },
            }
        }
    }
    Ok(clauses)
}

fn find_field_by_bytes(schema: &Schema, name: &[u8]) -> (found: Option<usize>)
    requires
        schema.wf(),
    ensures
        match found {
            Some(i) => field_named(schema@, name@) == Some(i as int) && i < schema@.len(),
            None => field_named(schema@, name@) is None,
        },
{
    let mut i: usize = 0;
    while i < schema.len()
        invariant
            schema.wf(),
            i <= schema@.len(),
            forall|k: int| 0 <= k < i ==> encode_utf8((#[trigger] schema@[k]).name) != name@,
        decreases schema@.len() - i,
    {
        if bytes_equal(schema.field(i).name.as_str().as_bytes(), name) {
            proof {
                let chosen = choose|k: int|
                    0 <= k < schema@.len() && encode_utf8((#[trigger] schema@[k]).name) == name@;
                if chosen > i {
                    crate::schema::lemma_encoding_injective(
                        schema@[chosen].name,
                        schema@[i as int].name,
                    );
                }
            }
            return Some(i);
        }
        i = i + 1;
    }
    None
}

/// The bytes are one term: at least one byte, none of them white space, a
/// quote or a colon.
pub open spec fn is_plain_term(bytes: Seq<u8>) -> bool {
    &&& bytes.len() > 0
    &&& forall|i: int| 0 <= i < bytes.len() ==> is_term_byte(#[trigger] bytes[i])
}

/// A query that is one term and nothing else parses to one clause, which
/// names no field and holds that term.
pub proof fn lemma_term_query(schema: Seq<FieldView>, bytes: Seq<u8>)
    requires
        is_plain_term(bytes),
    ensures
        parsed(schema, bytes) == Ok::<Seq<ClauseView>, ParseError>(
            seq![ClauseView { field: None, terms: seq![bytes] }],
        ),
{
    let n = bytes.len() as int;
    lemma_term_end_bounds(bytes, 0);
    assert(term_end(bytes, 0) == n);
    assert(bytes.subrange(0, n) =~= bytes);
    let clause = RawClauseView { field: None, terms: seq![bytes] };
    assert(clause_at(bytes, 0) == Step::Clause(clause, n));
    assert(clauses_from(bytes, n) == Ok::<Seq<RawClauseView>, int>(seq![]));
    assert(seq![clause] + Seq::<RawClauseView>::empty() =~= seq![clause]);
    assert(clauses_from(bytes, 0) == Ok::<Seq<RawClauseView>, int>(seq![clause]));
    assert(Seq::new(1, |k: int| resolved(schema, seq![clause][k])) =~= seq![
        ClauseView { field: None, terms: seq![bytes] },
    ]);
}

/// Every clause holds at least one term.
pub open spec fn query_wf(clauses: Seq<ClauseView>) -> bool {
    forall|k: int| 0 <= k < clauses.len() ==> (#[trigger] clauses[k]).terms.len() > 0
}

/// Parses a query string against a schema. A malformed query is refused:
/// nothing is ever guessed or dropped.
pub fn parse_query(schema: &Schema, query: &str) -> (r: Result<Query, ParseError>)
    requires
        schema.wf(),
    ensures
        match r {
            Ok(parsed_query) => parsed(schema@, query.spec_bytes()) == Ok::<
                Seq<ClauseView>,
                ParseError,
            >(parsed_query@) && query_wf(parsed_query@) && parsed_query@.len() > 0,
            Err(e) => parsed(schema@, query.spec_bytes()) == Err::<Seq<ClauseView>, ParseError>(e),
        },
{
    let bytes = query.as_bytes();
    let raw = match read_clauses(bytes) {
        Err(at) => {
            return Err(ParseError::Syntax(at));
        },
        Ok(raw) => raw,
    };
    if raw.len() == 0 {
        return Err(ParseError::Syntax(bytes.len()));
    }
    let ghost written = raw_views(raw@);
    let mut clauses: Vec<Clause> = Vec::new();
    for clause in iter: raw
        invariant
            schema.wf(),
            written == raw_views(iter.seq()),
            written.len() > 0,
            clauses_have_terms(written),
            clauses_from(query.spec_bytes(), 0) == Ok::<Seq<RawClauseView>, int>(written),
            clauses.len() == iter.index(),
            forall|k: int| 0 <= k < clauses.len() ==> clause_known(schema@, #[trigger] written[k]),
            forall|k: int|
                0 <= k < clauses.len() ==> (#[trigger] clauses[k])@ == resolved(
                    schema@,
                    written[k],
                ),
    {
        assert(written[clauses.len() as int] == clause@);
        let RawClause { field, terms } = clause;
        let number = match field {
            None => None,
            Some(name) => match find_field_by_bytes(schema, name.as_slice()) {
                Some(number) => Some(number),
                None => {
                    return Err(ParseError::UnknownField);
                },
            },
        };
        clauses.push(Clause { field: number, terms });
    }
    let parsed_query = Query { clauses };
    assert(parsed_query@ =~= Seq::new(written.len(), |k: int| resolved(schema@, written[k])));
    Ok(parsed_query)
}

} // verus!
