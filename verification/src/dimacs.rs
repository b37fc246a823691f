use crate::connections::Connection;
use crate::logic::clause_within;
use crate::solver::Solver;
use vstd::prelude::*;
use vstd::string::StrSliceExecFns;
use vstd::string::StringExecFns;

verus! {

/// A literal as it is read: the name of its variable and its polarity.
#[derive(Debug)]
pub struct NamedLiteral {
    pub name: String,
    pub positive: bool,
}

/// A literal as it is read, as a value of mathematics.
pub struct Named {
    pub name: Seq<char>,
    pub positive: bool,
}

impl View for NamedLiteral {
    type V = Named;

    open spec fn view(&self) -> Named {
        Named { name: self.name@, positive: self.positive }
    }
}

/// The views of the literals of a clause as it is read.
pub open spec fn named_views(v: Seq<NamedLiteral>) -> Seq<Named> {
    Seq::new(v.len(), |i: int| v[i]@)
}

/// The views of the clauses of a formula as it is read.
pub open spec fn formula_views(v: Seq<Vec<NamedLiteral>>) -> Seq<Seq<Named>> {
    Seq::new(v.len(), |i: int| named_views(v[i]@))
}

/// A character that separates tokens within a line.
pub open spec fn blank(c: char) -> bool {
    c == ' ' || c == '\t' || c == '\r'
}

/// The position of the first line break at or after `from`, or the length
/// of the text.
pub open spec fn line_end(text: Seq<char>, from: int) -> int
    decreases text.len() - from,
{
    if from >= text.len() {
        text.len() as int
    } else if text[from] == '\n' {
        from
    } else {
        line_end(text, from + 1)
    }
}

/// The position of the first blank at or after `from`, or the length of
/// the line.
pub open spec fn token_end(line: Seq<char>, from: int) -> int
    decreases line.len() - from,
{
    if from >= line.len() {
        line.len() as int
    } else if blank(line[from]) {
        from
    } else {
        token_end(line, from + 1)
    }
}

/// The tokens of the line from position `from` on: its runs of characters
/// that are not blank.
pub open spec fn tokens_from(line: Seq<char>, from: int) -> Seq<Seq<char>>
    decreases line.len() - from,
{
    if from >= line.len() || from < 0 {
        Seq::empty()
    } else if blank(line[from]) {
        tokens_from(line, from + 1)
    } else if token_end(line, from) <= from || token_end(line, from) > line.len() {
        Seq::empty()
    } else {
        seq![line.subrange(from, token_end(line, from))] + tokens_from(line, token_end(line, from))
    }
}

/// The five characters by which the header line is known.
pub open spec fn header_mark() -> Seq<char> {
    seq!['p', ' ', 'c', 'n', 'f']
}

/// The line holds the mark of the header.
pub open spec fn has_header(line: Seq<char>) -> bool {
    exists|i: int| 0 <= i && i + 5 <= line.len() && #[trigger] line.subrange(i, i + 5) == header_mark()
}

/// The literal that a token stands for: a leading `-` negates, and the
/// rest is the name of the variable.
pub open spec fn literal_of(token: Seq<char>) -> Named {
    if token.len() > 0 && token[0] == '-' {
        Named { name: token.subrange(1, token.len() as int), positive: false }
    } else {
        Named { name: token, positive: true }
    }
}

/// The token `0`, which ends a clause and stands for no literal.
pub open spec fn is_zero(token: Seq<char>) -> bool {
    token == seq!['0']
}

/// The literals of the tokens, without the tokens `0`.
pub open spec fn literals_of(tokens: Seq<Seq<char>>) -> Seq<Named>
    decreases tokens.len(),
{
    if tokens.len() == 0 {
        Seq::empty()
    } else if is_zero(tokens.last()) {
        literals_of(tokens.drop_last())
    } else {
        literals_of(tokens.drop_last()).push(literal_of(tokens.last()))
    }
}

/// The clauses of the text from position `from` on, `seen` telling whether
/// the header was passed. Lines before the header are ignored; a line with
/// the mark of the header is a header; after the header a line whose first
/// token begins with `%` ends the text, a line without tokens is skipped,
/// and any other line is a clause.
pub open spec fn clauses_from(text: Seq<char>, from: int, seen: bool) -> Seq<Seq<Named>>
    decreases text.len() - from,
{
    if from >= text.len() || from < 0 {
        Seq::empty()
    } else {
        let end = line_end(text, from);
        let line = text.subrange(from, end);
        let tokens = tokens_from(line, 0);
        if end < from {
            Seq::empty()
        } else if has_header(line) {
            if end >= text.len() {
                Seq::empty()
            } else {
                clauses_from(text, end + 1, true)
            }
        } else if !seen {
            if end >= text.len() {
                Seq::empty()
            } else {
                clauses_from(text, end + 1, false)
            }
        } else if tokens.len() > 0 && tokens[0][0] == '%' {
            Seq::empty()
        } else if tokens.len() == 0 {
            if end >= text.len() {
                Seq::empty()
            } else {
                clauses_from(text, end + 1, true)
            }
        } else {
            seq![literals_of(tokens)] + (if end >= text.len() {
                Seq::empty()
            } else {
                clauses_from(text, end + 1, true)
            })
        }
    }
}

/// The clauses that a text in the DIMACS format holds.
pub open spec fn parsed(text: Seq<char>) -> Seq<Seq<Named>> {
    clauses_from(text, 0, false)
}

/// The end of a line lies in the text, no line break before it and one at
/// it unless the text ends there.
pub proof fn lemma_line_end(text: Seq<char>, from: int)
    requires
        0 <= from <= text.len(),
    ensures
        from <= line_end(text, from) <= text.len(),
        forall|i: int| from <= i < line_end(text, from) ==> text[i] != '\n',
        line_end(text, from) < text.len() ==> text[line_end(text, from)] == '\n',
    decreases text.len() - from,
{
    if from < text.len() && text[from] != '\n' {
        lemma_line_end(text, from + 1);
    }
}

/// The end of a token lies in the line, no blank before it and one at it
/// unless the line ends there.
pub proof fn lemma_token_end(line: Seq<char>, from: int)
    requires
        0 <= from <= line.len(),
    ensures
        from <= token_end(line, from) <= line.len(),
        forall|i: int| from <= i < token_end(line, from) ==> !blank(line[i]),
        token_end(line, from) < line.len() ==> blank(line[token_end(line, from)]),
        from < line.len() && !blank(line[from]) ==> token_end(line, from) > from,
    decreases line.len() - from,
{
    if from < line.len() && !blank(line[from]) {
        lemma_token_end(line, from + 1);
    }
}

/// The first position from `from` on is the end of the token when no
/// blank stands before `to` and one stands at `to`, or the line ends
/// there.
pub proof fn lemma_token_end_is(line: Seq<char>, from: int, to: int)
    requires
        0 <= from <= to <= line.len(),
        forall|i: int| from <= i < to ==> !blank(line[i]),
        to < line.len() ==> blank(line[to]),
    ensures
        token_end(line, from) == to,
    decreases to - from,
{
    if from < to {
        lemma_token_end_is(line, from + 1, to);
    }
}

/// The first line break from `from` on is at `to` when none stands before
/// `to` and one stands at `to`, or the text ends there.
pub proof fn lemma_line_end_is(text: Seq<char>, from: int, to: int)
    requires
        0 <= from <= to <= text.len(),
        forall|i: int| from <= i < to ==> text[i] != '\n',
        to < text.len() ==> text[to] == '\n',
    ensures
        line_end(text, from) == to,
    decreases to - from,
{
    if from < to {
        lemma_line_end_is(text, from + 1, to);
    }
}

/// The position of the end of the line that begins at `from`.
fn find_line_end(text: &str, n: usize, from: usize) -> (end: usize)
    requires
        n == text@.len(),
        from <= n,
    ensures
        end == line_end(text@, from as int),
        from <= end <= n,
{
    let mut j = from;
    while j < n && text.get_char(j) != '\n'
        invariant
            from <= j <= n,
            n == text@.len(),
            forall|i: int| from <= i < j ==> text@[i] != '\n',
        decreases n - j,
    {
        j += 1;
    }
    proof {
        lemma_line_end_is(text@, from as int, j as int);
    }
    j
}

/// Whether the line from `from` to `to` holds the mark of the header.
fn find_header(text: &str, from: usize, to: usize) -> (found: bool)
    requires
        from <= to <= text@.len(),
    ensures
        found == has_header(text@.subrange(from as int, to as int)),
{
    let ghost line = text@.subrange(from as int, to as int);
    if to - from < 5 {
        return false;
    }
    let last = to - 5;
    let mut i = from;
    while i <= last
        invariant
            from <= i <= last + 1,
            last == to - 5,
            from <= to <= text@.len(),
            line == text@.subrange(from as int, to as int),
            forall|k: int| 0 <= k < i - from ==> #[trigger] line.subrange(k, k + 5) != header_mark(),
        decreases last + 1 - i,
    {
        if text.get_char(i) == 'p' && text.get_char(i + 1) == ' ' && text.get_char(i + 2) == 'c'
            && text.get_char(i + 3) == 'n' && text.get_char(i + 4) == 'f' {
            proof {
                let k = i - from;
                assert(line.subrange(k, k + 5) =~= header_mark());
            }
            return true;
        }
        proof {
            let k = i - from;
            let w = line.subrange(k, k + 5);
            assert(w[0] == text@[i as int]);
            assert(w[1] == text@[i + 1]);
            assert(w[2] == text@[i + 2]);
            assert(w[3] == text@[i + 3]);
            assert(w[4] == text@[i + 4]);
            assert(header_mark()[0] == 'p' && header_mark()[1] == ' ' && header_mark()[2] == 'c'
                && header_mark()[3] == 'n' && header_mark()[4] == 'f');
        }
        i += 1;
    }
    false
}

/// What a line holds: its literals, the number of its tokens, and
/// whether its first token begins with `%`.
pub struct LineContent {
    pub literals: Vec<NamedLiteral>,
    pub tokens: usize,
    pub ends_text: bool,
}

/// Reads the tokens of the line from `from` to `to`.
fn read_line(text: &str, from: usize, to: usize) -> (r: LineContent)
    requires
        from <= to <= text@.len(),
    ensures
        named_views(r.literals@) == literals_of(
            tokens_from(text@.subrange(from as int, to as int), 0),
        ),
        r.tokens == tokens_from(text@.subrange(from as int, to as int), 0).len(),
        r.ends_text == (r.tokens > 0 && tokens_from(
            text@.subrange(from as int, to as int),
            0,
        )[0][0] == '%'),
{
    let ghost line = text@.subrange(from as int, to as int);
    let ghost all = tokens_from(line, 0);
    let ghost mut done: Seq<Seq<char>> = Seq::empty();
    let mut literals: Vec<NamedLiteral> = Vec::new();
    let mut count: usize = 0;
    let mut ends_text = false;
    let mut j = from;
    proof {
        assert(named_views(literals@) =~= literals_of(done));
    }
    while j < to
        invariant
            from <= j <= to,
            from <= to <= text@.len(),
            line == text@.subrange(from as int, to as int),
            all == tokens_from(line, 0),
            all == done + tokens_from(line, j - from),
            named_views(literals@) == literals_of(done),
            count == done.len(),
            count <= j - from,
            forall|t: int| 0 <= t < done.len() ==> (#[trigger] done[t]).len() > 0,
            ends_text == (done.len() > 0 && done[0][0] == '%'),
        decreases to - j,
    {
        let c = text.get_char(j);
        proof {
            assert(line[j - from] == c);
        }
        if c == ' ' || c == '\t' || c == '\r' {
            j += 1;
        } else {
            let start = j;
            let mut e = j + 1;
            while e < to && !(text.get_char(e) == ' ' || text.get_char(e) == '\t' || text.get_char(e)
                == '\r')
                invariant
                    start < e <= to,
                    from <= start,
                    from <= to <= text@.len(),
                    line == text@.subrange(from as int, to as int),
                    forall|i: int| start - from <= i < e - from ==> !blank(line[i]),
                decreases to - e,
            {
                proof {
                    assert(line[e - from] == text@[e as int]);
                }
                e += 1;
            }
            proof {
                if e < to {
                    assert(line[e - from] == text@[e as int]);
                }
                assert(!blank(line[start - from]));
                lemma_token_end_is(line, start - from, e - from);
                assert(line.subrange(start - from, e - from) =~= text@.subrange(
                    start as int,
                    e as int,
                ));
            }
            let ghost token = text@.subrange(start as int, e as int);
            let first = c;
            let is_zero_token = e - start == 1 && first == '0';
            proof {
                assert(token[0] == first);
                if is_zero_token {
                    assert(token =~= seq!['0']);
                }
                if is_zero(token) {
                    assert(token.len() == 1 && token[0] == '0');
                }
                let grown = done.push(token);
                assert(grown.drop_last() =~= done);
                assert(grown.last() == token);
                assert(all =~= grown + tokens_from(line, e - from));
            }
            if count == 0 {
                ends_text = first == '%';
            }
            if !is_zero_token {
                let ghost was = named_views(literals@);
                if first == '-' {
                    let name = text.substring_char(start + 1, e);
                    literals.push(NamedLiteral { name: String::from_str(name), positive: false });
                    proof {
                        assert(token.subrange(1, token.len() as int) =~= text@.subrange(
                            start + 1,
                            e as int,
                        ));
                    }
                } else {
                    let name = text.substring_char(start, e);
                    literals.push(NamedLiteral { name: String::from_str(name), positive: true });
                }
                proof {
                    assert(named_views(literals@) =~= was.push(literal_of(token)));
                }
            }
            proof {
                done = done.push(token);
            }
            count += 1;
            j = e;
        }
    }
    proof {
        assert(tokens_from(line, to - from) =~= Seq::<Seq<char>>::empty());
        assert(all =~= done);
    }
    LineContent { literals, tokens: count, ends_text }
}

/// The clauses that a text in the DIMACS format holds: see `parsed`.
pub fn parse_dimacs(source: &str) -> (clauses: Vec<Vec<NamedLiteral>>)
    ensures
        formula_views(clauses@) == parsed(source@),
{
    let n = source.unicode_len();
    let mut clauses: Vec<Vec<NamedLiteral>> = Vec::new();
    let mut seen = false;
    let mut from: usize = 0;
    proof {
        assert(formula_views(clauses@) =~= Seq::<Seq<Named>>::empty());
    }
    while from < n
        invariant
            from <= n,
            n == source@.len(),
            parsed(source@) == formula_views(clauses@) + clauses_from(source@, from as int, seen),
        decreases n - from,
    {
        let end = find_line_end(source, n, from);
        proof {
            lemma_line_end(source@, from as int);
        }
        let ghost line = source@.subrange(from as int, end as int);
        let ghost was = formula_views(clauses@);
        if find_header(source, from, end) {
            seen = true;
        } else if seen {
            let content = read_line(source, from, end);
            if content.ends_text {
                proof {
                    assert(clauses_from(source@, from as int, seen) =~= Seq::<Seq<Named>>::empty());
                    assert(parsed(source@) =~= formula_views(clauses@));
                }
                return clauses;
            }
            if content.tokens > 0 {
                clauses.push(content.literals);
                proof {
                    assert(formula_views(clauses@) =~= was.push(
                        literals_of(tokens_from(line, 0)),
                    ));
                    let rest = if end >= n {
                        Seq::<Seq<Named>>::empty()
                    } else {
                        clauses_from(source@, end + 1, true)
                    };
                    assert(parsed(source@) =~= formula_views(clauses@) + rest);
                }
            }
        }
        if end >= n {
            proof {
                assert(clauses_from(source@, n as int, seen) =~= Seq::<Seq<Named>>::empty());
            }
            from = n;
        } else {
            from = end + 1;
        }
    }
    proof {
        assert(clauses_from(source@, from as int, seen) =~= Seq::<Seq<Named>>::empty());
        assert(parsed(source@) =~= formula_views(clauses@));
    }
    clauses
}

/// The names after each literal of the clause brought its own, where it
/// was missing.
pub open spec fn interned(names: Seq<Seq<char>>, lits: Seq<Named>) -> Seq<Seq<char>>
    decreases lits.len(),
{
    if lits.len() == 0 {
        names
    } else {
        let r = interned(names, lits.drop_last());
        if r.contains(lits.last().name) {
            r
        } else {
            r.push(lits.last().name)
        }
    }
}

/// The names after each clause brought those of its literals.
pub open spec fn interned_all(names: Seq<Seq<char>>, clauses: Seq<Seq<Named>>) -> Seq<Seq<char>>
    decreases clauses.len(),
{
    if clauses.len() == 0 {
        names
    } else {
        interned(interned_all(names, clauses.drop_last()), clauses.last())
    }
}

/// The clause with each name replaced by its index among `names`.
pub open spec fn resolved(names: Seq<Seq<char>>, lits: Seq<Named>) -> Seq<Connection> {
    Seq::new(
        lits.len(),
        |i: int| Connection { var_pos: names.index_of(lits[i].name) as usize, val: lits[i].positive },
    )
}

/// Names that are interned stay where they are.
pub proof fn lemma_interned(names: Seq<Seq<char>>, lits: Seq<Named>)
    requires
        names.no_duplicates(),
    ensures
        interned(names, lits).no_duplicates(),
        names.len() <= interned(names, lits).len(),
        interned(names, lits).subrange(0, names.len() as int) == names,
        forall|i: int| 0 <= i < lits.len() ==> interned(names, lits).contains(#[trigger] lits[i].name),
    decreases lits.len(),
{
    if lits.len() > 0 {
        let d = lits.drop_last();
        lemma_interned(names, d);
        let r = interned(names, d);
        let f = interned(names, lits);
        let x = lits.last().name;
        if !r.contains(x) {
            assert forall|i: int, j: int| 0 <= i < f.len() && 0 <= j < f.len() && i != j implies f[i]
                != f[j] by {
                if i < r.len() && j < r.len() {
                    assert(r[i] != r[j]);
                } else if i < r.len() {
                    assert(r.contains(r[i]));
                } else {
                    assert(r.contains(r[j]));
                }
            }
            assert(f[r.len() as int] == x);
        }
        assert(f.subrange(0, names.len() as int) =~= r.subrange(0, names.len() as int));
        assert forall|i: int| 0 <= i < lits.len() implies f.contains(#[trigger] lits[i].name) by {
            if i < d.len() {
                assert(d[i] == lits[i]);
                assert(r.contains(d[i].name));
                let w = choose|w: int| 0 <= w < r.len() && r[w] == d[i].name;
                assert(f[w] == d[i].name);
            } else {
                if r.contains(x) {
                    let w = choose|w: int| 0 <= w < r.len() && r[w] == x;
                    assert(f[w] == x);
                }
            }
        }
    } else {
        assert(names.subrange(0, names.len() as int) =~= names);
    }
}

impl Solver {
    /// The names of the variables are distinct.
    pub proof fn lemma_names_distinct(&self)
        requires
            self.wf(),
        ensures
            self.names().no_duplicates(),
    {
        assert forall|i: int, j: int|
            0 <= i < self.names().len() && 0 <= j < self.names().len() && i != j implies self.names()[i]
            != self.names()[j] by {
            if i < j {
                assert(self.variables@[i].name@ != self.variables@[j].name@);
            } else {
                assert(self.variables@[j].name@ != self.variables@[i].name@);
            }
        }
    }

    /// Appends the clause with the given literals: each name that no
    /// variable has yet gets a new, unassigned variable, and each literal
    /// is on the variable of its name. Returns the index of the clause.
    pub fn add_named_group(&mut self, lits: &Vec<NamedLiteral>) -> (k: usize)
        requires
            old(self).wf(),
        ensures
            final(self).wf(),
            k == old(self).num_clauses(),
            final(self).num_clauses() == old(self).num_clauses() + 1,
            final(self).names() == interned(old(self).names(), named_views(lits@)),
            final(self).clause(k as int) == resolved(final(self).names(), named_views(lits@)),
            forall|i: int|
                0 <= i < old(self).num_clauses() ==> #[trigger] final(self).clause(i) == old(
                    self,
                ).clause(i),
            forall|v: int|
                0 <= v < final(self).num_vars() ==> #[trigger] final(self).vals()[v] == (if v < old(
                    self,
                ).num_vars() {
                    old(self).vals()[v]
                } else {
                    None
                }),
            final(self).backtracks == old(self).backtracks,
            final(self).connections_checked == old(self).connections_checked,
    {
        let n = lits.len();
        let ghost named = named_views(lits@);
        let mut literals: Vec<Connection> = Vec::new();
        let mut i: usize = 0;
        proof {
            assert(named.subrange(0, 0) =~= Seq::<Named>::empty());
            self.lemma_names_distinct();
        }
        while i < n
            invariant
                i <= n,
                n == lits@.len(),
                named == named_views(lits@),
                self.wf(),
                self.names() == interned(old(self).names(), named.subrange(0, i as int)),
                self.names().no_duplicates(),
                old(self).num_vars() <= self.num_vars(),
                self.connections == old(self).connections,
                self.connection_groups == old(self).connection_groups,
                self.backtracks == old(self).backtracks,
                self.connections_checked == old(self).connections_checked,
                forall|v: int|
                    0 <= v < self.num_vars() ==> #[trigger] self.vals()[v] == (if v < old(
                        self,
                    ).num_vars() {
                        old(self).vals()[v]
                    } else {
                        None
                    }),
                literals@.len() == i,
                forall|j: int|
                    0 <= j < i ==> (#[trigger] literals@[j]).var_pos < self.num_vars()
                        && self.names()[literals@[j].var_pos as int] == named[j].name
                        && literals@[j].val == named[j].positive,
            decreases n - i,
        {
            let ghost before = *self;
            let r = self.add_variable(lits[i].name.clone());
            let var = match r {
                Some(v) => v,
                None => 0,
            };
            literals.push(Connection::new(var, lits[i].positive));
            proof {
                let a = named.subrange(0, i as int);
                let b = named.subrange(0, i + 1);
                assert(b.drop_last() =~= a);
                assert(b.last() == named[i as int]);
                assert(named[i as int].name == lits@[i as int].name@);
                self.lemma_names_distinct();
                assert forall|v: int| 0 <= v < self.num_vars() implies #[trigger] self.vals()[v] == (
                if v < old(self).num_vars() {
                    old(self).vals()[v]
                } else {
                    None
                }) by {
                    if v < before.num_vars() {
                        assert(self.vals().subrange(0, before.num_vars() as int)[v]
                            == before.vals()[v]);
                        assert(before.vals()[v] == (if v < old(self).num_vars() {
                            old(self).vals()[v]
                        } else {
                            None
                        }));
                    } else {
                        assert(!before.names().contains(lits@[i as int].name@));
                        assert(self.vals() == before.vals().push(None));
                    }
                }
                assert forall|j: int| 0 <= j < i + 1 implies (#[trigger] literals@[j]).var_pos
                    < self.num_vars() && self.names()[literals@[j].var_pos as int] == named[j].name
                    && literals@[j].val == named[j].positive by {
                    if j < i {
                        let p = literals@[j].var_pos as int;
                        assert(self.names().subrange(0, before.num_vars() as int)[p]
                            == before.names()[p]);
                    }
                }
            }
            i += 1;
        }
        proof {
            assert(named.subrange(0, n as int) =~= named);
            assert(clause_within(literals@, self.num_vars()));
        }
        let ghost filled = *self;
        let k = self.add_connection_group(&literals);
        proof {
            assert(self.names() =~= filled.names());
            assert(self.vals() =~= filled.vals());
            assert(self.clause(k as int) =~= resolved(self.names(), named)) by {
                assert forall|j: int| 0 <= j < n implies literals@[j] == resolved(
                    self.names(),
                    named,
                )[j] by {
                    let p = literals@[j].var_pos as int;
                    assert(self.names()[p] == named[j].name);
                    assert(self.names().contains(named[j].name));
                    let q = self.names().index_of(named[j].name);
                    assert(self.names()[q] == named[j].name);
                    if p != q {
                        assert(self.names()[p] != self.names()[q]);
                    }
                }
            }
        }
        k
    }

    /// Reads the clauses of a text in the DIMACS format (see `parsed`)
    /// and appends them: each name that no variable has yet gets a new,
    /// unassigned variable.
    pub fn load_cnf(&mut self, source: &str)
        requires
            old(self).wf(),
        ensures
            final(self).wf(),
            final(self).num_clauses() == old(self).num_clauses() + parsed(source@).len(),
            final(self).names() == interned_all(old(self).names(), parsed(source@)),
            forall|i: int|
                0 <= i < parsed(source@).len() ==> #[trigger] final(self).clause(
                    old(self).num_clauses() + i,
                ) == resolved(final(self).names(), parsed(source@)[i]),
            forall|i: int|
                0 <= i < old(self).num_clauses() ==> #[trigger] final(self).clause(i) == old(
                    self,
                ).clause(i),
            forall|v: int|
                0 <= v < final(self).num_vars() ==> #[trigger] final(self).vals()[v] == (if v < old(
                    self,
                ).num_vars() {
                    old(self).vals()[v]
                } else {
                    None
                }),
            final(self).backtracks == old(self).backtracks,
            final(self).connections_checked == old(self).connections_checked,
    {
        let clauses = parse_dimacs(source);
        let n = clauses.len();
        let ghost all = parsed(source@);
        let ghost base = self.num_clauses();
        let mut i: usize = 0;
        proof {
            assert(all.subrange(0, 0) =~= Seq::<Seq<Named>>::empty());
            assert(all.len() == n);
        }
        while i < n
            invariant
                i <= n,
                n == clauses@.len(),
                all == formula_views(clauses@),
                all == parsed(source@),
                base == old(self).num_clauses(),
                self.wf(),
                self.num_clauses() == base + i,
                old(self).num_vars() <= self.num_vars(),
                self.names() == interned_all(old(self).names(), all.subrange(0, i as int)),
                forall|j: int|
                    0 <= j < i ==> #[trigger] self.clause(base + j) == resolved(self.names(), all[j]),
                forall|j: int, t: int|
                    0 <= j < i && 0 <= t < all[j].len() ==> self.names().contains(
                        #[trigger] all[j][t].name,
                    ),
                forall|j: int| 0 <= j < base ==> #[trigger] self.clause(j) == old(self).clause(j),
                forall|v: int|
                    0 <= v < self.num_vars() ==> #[trigger] self.vals()[v] == (if v < old(
                        self,
                    ).num_vars() {
                        old(self).vals()[v]
                    } else {
                        None
                    }),
                self.backtracks == old(self).backtracks,
                self.connections_checked == old(self).connections_checked,
            decreases n - i,
        {
            let ghost before = *self;
            proof {
                before.lemma_names_distinct();
                lemma_interned(before.names(), all[i as int]);
                assert(all[i as int] == named_views(clauses@[i as int]@));
            }
            self.add_named_group(&clauses[i]);
            proof {
                let a = all.subrange(0, i as int);
                let b = all.subrange(0, i + 1);
                assert(b.drop_last() =~= a);
                assert(b.last() == all[i as int]);
                assert forall|j: int| 0 <= j < i + 1 implies #[trigger] self.clause(base + j)
                    == resolved(self.names(), all[j]) by {
                    if j < i {
                        assert(self.clause(base + j) == before.clause(base + j));
                        assert forall|t: int| 0 <= t < all[j].len() implies before.names().contains(
                            #[trigger] all[j][t].name,
                        ) by {}
                        lemma_resolved_stable(before.names(), self.names(), all[j]);
                    }
                }
                assert forall|j: int, t: int|
                    0 <= j < i + 1 && 0 <= t < all[j].len() implies self.names().contains(
                    #[trigger] all[j][t].name,
                ) by {
                    if j < i {
                        let x = all[j][t].name;
                        assert(before.names().contains(x));
                        let w = choose|w: int| 0 <= w < before.names().len() && before.names()[w] == x;
                        assert(self.names().subrange(0, before.names().len() as int)[w]
                            == self.names()[w]);
                    }
                }
            }
            i += 1;
        }
        proof {
            assert(all.subrange(0, n as int) =~= all);
        }
    }
}

/// A clause resolves to the same literals under names that were extended,
/// when its own names were among them before.
pub proof fn lemma_resolved_stable(names: Seq<Seq<char>>, more: Seq<Seq<char>>, lits: Seq<Named>)
    requires
        more.no_duplicates(),
        names.len() <= more.len(),
        more.subrange(0, names.len() as int) == names,
        forall|i: int| 0 <= i < lits.len() ==> names.contains(#[trigger] lits[i].name),
    ensures
        resolved(more, lits) == resolved(names, lits),
{
    assert forall|i: int| 0 <= i < lits.len() implies resolved(more, lits)[i] == resolved(
        names,
        lits,
    )[i] by {
        let x = lits[i].name;
        let p = names.index_of(x);
        assert(names.contains(x));
        assert(names[p] == x);
        assert(more.subrange(0, names.len() as int)[p] == more[p]);
        assert(more.contains(x));
        let q = more.index_of(x);
        assert(more[q] == x);
        if p != q {
            assert(more[p] != more[q]);
        }
    }
    assert(resolved(more, lits) =~= resolved(names, lits));
}

} // verus!
