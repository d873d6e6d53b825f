use vstd::prelude::*;
use crate::text::{trim, trim_start, trim_chars, chars_of, string_of};

verus! {

/// Why a line was rejected.
#[derive(Clone, Copy, Debug, PartialEq, Eq, Structural)]
pub enum ParseErrorKind {
    UnclosedQuote,
    InvalidQuotePosition,
    InvalidSessionNameFormat,
    InvalidAssignment,
    ExtraKeyOrValue,
}

/// What one line of text means.
pub enum ParseLineResult {
    NewSession { name: String },
    EmptyLine,
    KeyValue { key: String, value: String },
    ParseError { error: ParseErrorKind },
}

/// The meaning of a line, over character sequences.
pub enum LineMeaning {
    NewSession { name: Seq<char> },
    EmptyLine,
    KeyValue { key: Seq<char>, value: Seq<char> },
    ParseError { error: ParseErrorKind },
}

impl View for ParseLineResult {
    type V = LineMeaning;

    open spec fn view(&self) -> LineMeaning {
        match self {
            ParseLineResult::NewSession { name } => LineMeaning::NewSession { name: name@ },
            ParseLineResult::EmptyLine => LineMeaning::EmptyLine,
            ParseLineResult::KeyValue { key, value } => LineMeaning::KeyValue {
                key: key@,
                value: value@,
            },
            ParseLineResult::ParseError { error } => LineMeaning::ParseError { error: *error },
        }
    }
}

/// The state of the left-to-right scan of one line.
pub struct ScanState {
    /// A part has begun: leading spaces are no longer skipped.
    pub started: bool,
    /// The quote character of the open quoted segment, if any.
    pub quote: Option<char>,
    /// The previous character was a backslash not yet consumed.
    pub escape: bool,
    /// The parts closed so far.
    pub parts: Seq<Seq<char>>,
    /// The part being accumulated.
    pub part: Seq<char>,
    /// A comment marker ended the scan.
    pub stopped: bool,
    /// A quote character stood where no part starts.
    pub misplaced_quote: bool,
}

/// Before the first character: nothing started, no quote, no parts.
pub open spec fn initial_state() -> ScanState {
    ScanState {
        started: false,
        quote: None,
        escape: false,
        parts: Seq::empty(),
        part: Seq::empty(),
        stopped: false,
        misplaced_quote: false,
    }
}

/// The two quote characters.
pub open spec fn is_quote_char(c: char) -> bool {
    c == '\'' || c == '"'
}

/// The characters that a backslash makes literal outside quotes.
pub open spec fn is_escapable(c: char) -> bool {
    c == '\\' || c == '\'' || c == '"' || c == ';' || c == '#' || c == '='
}

/// One character outside any quote, once the part has started.
pub open spec fn step_unquoted(st: ScanState, c: char) -> ScanState {
    if st.escape {
        let lit = if is_escapable(c) { seq![c] } else { seq!['\\', c] };
        ScanState { part: st.part + lit, escape: false, ..st }
    } else if c == '\\' {
        ScanState { escape: true, ..st }
    } else if c == '=' {
        ScanState {
            parts: st.parts.push(trim(st.part)).push(seq!['=']),
            part: Seq::empty(),
            started: false,
            quote: None,
            ..st
        }
    } else if c == ';' || c == '#' {
        ScanState { stopped: true, ..st }
    } else if is_quote_char(c) {
        ScanState { misplaced_quote: true, ..st }
    } else {
        ScanState { part: st.part.push(c), ..st }
    }
}

/// One character inside a segment quoted by `q`.
pub open spec fn step_quoted(st: ScanState, q: char, c: char) -> ScanState {
    if st.escape {
        let lit = if c == q { seq![c] } else { seq!['\\', c] };
        ScanState { part: st.part + lit, escape: false, ..st }
    } else if c == q {
        ScanState { started: false, quote: None, ..st }
    } else if c == '\\' {
        ScanState { escape: true, ..st }
    } else {
        ScanState { part: st.part.push(c), ..st }
    }
}

/// The scan has ended early, at a comment marker or a misplaced quote.
pub open spec fn halted(st: ScanState) -> bool {
    st.stopped || st.misplaced_quote
}

/// One character of the scan.
pub open spec fn step(st: ScanState, c: char) -> ScanState {
    if halted(st) {
        st
    } else if !st.started && c == ' ' {
        st
    } else if !st.started && is_quote_char(c) {
        ScanState { quote: Some(c), started: true, ..st }
    } else {
        let st1 = ScanState { started: true, ..st };
        match st1.quote {
            None => step_unquoted(st1, c),
            Some(q) => step_quoted(st1, q, c),
        }
    }
}

/// The scan of the characters `s`, starting from `st`.
pub open spec fn run(st: ScanState, s: Seq<char>) -> ScanState
    decreases s.len(),
{
    if s.len() == 0 {
        st
    } else {
        step(run(st, s.drop_last()), s.last())
    }
}

/// The parts that are not empty, in order.
pub open spec fn nonempty_parts(ps: Seq<Seq<char>>) -> Seq<Seq<char>>
    decreases ps.len(),
{
    if ps.len() == 0 {
        Seq::empty()
    } else if ps.last().len() > 0 {
        nonempty_parts(ps.drop_last()).push(ps.last())
    } else {
        nonempty_parts(ps.drop_last())
    }
}

/// `p` stands in `s` from position `i` on.
pub open spec fn occurs_at(s: Seq<char>, p: Seq<char>, i: int) -> bool {
    0 <= i && i + p.len() <= s.len() && s.subrange(i, i + p.len()) == p
}

/// `p` stands somewhere in `s`.
pub open spec fn occurs_in(s: Seq<char>, p: Seq<char>) -> bool {
    exists|i: int| occurs_at(s, p, i)
}

/// `s` starts with `p`, and `p` stands nowhere in what follows that start.
pub open spec fn starts_only_with(s: Seq<char>, p: Seq<char>) -> bool {
    &&& occurs_at(s, p, 0)
    &&& !occurs_in(s.subrange(p.len() as int, s.len() as int), p)
}

/// `s` ends with `p`, and `p` stands nowhere in what precedes that end.
pub open spec fn ends_only_with(s: Seq<char>, p: Seq<char>) -> bool {
    &&& occurs_at(s, p, s.len() - p.len())
    &&& !occurs_in(s.subrange(0, s.len() - p.len()), p)
}

/// `s` is `[`, then text with no `[` and no `]`, then `]`.
pub open spec fn is_header(s: Seq<char>) -> bool {
    starts_only_with(s, seq!['[']) && ends_only_with(s, seq![']'])
}

/// The meaning of the parts of a line that scanned to its end.
pub open spec fn reduce(parts: Seq<Seq<char>>) -> LineMeaning {
    let ps = nonempty_parts(parts);
    if ps.len() == 1 {
        if is_header(ps[0]) {
            LineMeaning::NewSession { name: trim(ps[0].subrange(1, ps[0].len() - 1)) }
        } else {
            LineMeaning::ParseError { error: ParseErrorKind::InvalidSessionNameFormat }
        }
    } else if ps.len() == 3 {
        if ps[1] == seq!['='] {
            LineMeaning::KeyValue { key: ps[0], value: ps[2] }
        } else {
            LineMeaning::ParseError { error: ParseErrorKind::InvalidAssignment }
        }
    } else if ps.len() == 0 {
        LineMeaning::EmptyLine
    } else {
        LineMeaning::ParseError { error: ParseErrorKind::ExtraKeyOrValue }
    }
}

/// The meaning of a line.
pub open spec fn classify(line: Seq<char>) -> LineMeaning {
    let st = run(initial_state(), line);
    if st.misplaced_quote {
        LineMeaning::ParseError { error: ParseErrorKind::InvalidQuotePosition }
    } else if st.quote is Some {
        LineMeaning::ParseError { error: ParseErrorKind::UnclosedQuote }
    } else {
        reduce(st.parts.push(trim(st.part)))
    }
}

/// Scanning `a` then `b` is scanning `a + b`.
pub proof fn lemma_run_append(st: ScanState, a: Seq<char>, b: Seq<char>)
    ensures
        run(st, a + b) == run(run(st, a), b),
    decreases b.len(),
{
    if b.len() == 0 {
        assert(a + b =~= a);
    } else {
        lemma_run_append(st, a, b.drop_last());
        assert((a + b).drop_last() =~= a + b.drop_last());
        assert((a + b).last() == b.last());
    }
}

/// Once halted, the scan ignores what follows.
pub proof fn lemma_run_halted(st: ScanState, s: Seq<char>)
    requires
        halted(st),
    ensures
        run(st, s) == st,
    decreases s.len(),
{
    if s.len() > 0 {
        lemma_run_halted(st, s.drop_last());
    }
}

/// Inside a quoted segment, text free of the quote character and of
/// backslashes is taken as it is: comment markers and `=` neither end the
/// line nor split it.
pub proof fn lemma_quoted_text_is_content(st: ScanState, q: char, body: Seq<char>)
    requires
        !halted(st),
        st.started,
        st.quote == Some(q),
        !st.escape,
        forall|i: int| 0 <= i < body.len() ==> body[i] != q && body[i] != '\\',
    ensures
        run(st, body) == (ScanState { part: st.part + body, ..st }),
    decreases body.len(),
{
    if body.len() == 0 {
        assert(st.part + body =~= st.part);
    } else {
        lemma_quoted_text_is_content(st, q, body.drop_last());
        assert(st.part + body =~= (st.part + body.drop_last()).push(body.last()));
    }
}

proof fn lemma_run_one(st: ScanState, c: char)
    ensures
        run(st, seq![c]) == step(st, c),
{
    assert(seq![c].drop_last() =~= Seq::<char>::empty());
    assert(run(st, Seq::<char>::empty()) == st);
}

/// Plain characters: none blank, and none of `\`, `'`, `"`, `;`, `#`, `=`.
pub open spec fn is_plain(s: Seq<char>) -> bool {
    forall|i: int|
        0 <= i < s.len() ==> !crate::text::is_blank(#[trigger] s[i]) && !is_escapable(s[i])
}

proof fn lemma_plain_run(s: Seq<char>)
    requires
        is_plain(s),
        s.len() > 0,
    ensures
        run(initial_state(), s) == (ScanState { started: true, part: s, ..initial_state() }),
    decreases s.len(),
{
    let r = s.drop_last();
    assert(is_plain(r)) by {
        assert forall|i: int| 0 <= i < r.len() implies !crate::text::is_blank(#[trigger] r[i])
            && !is_escapable(r[i]) by {
            assert(r[i] == s[i]);
        }
    }
    assert(!crate::text::is_blank(s[s.len() - 1]) && !is_escapable(s[s.len() - 1]));
    assert(s.last() != ' ');
    if r.len() == 0 {
        assert(s =~= seq![s.last()]);
    } else {
        lemma_plain_run(r);
        assert(r.push(s.last()) =~= s);
    }
}

/// A value quoted with `'` or `"` keeps `;`, `#` and `=` as text:
/// `key='body'` sets `key` to the trimmed body.
pub proof fn lemma_quoted_value(key: Seq<char>, q: char, body: Seq<char>)
    requires
        key.len() > 0,
        is_plain(key),
        is_quote_char(q),
        forall|i: int| 0 <= i < body.len() ==> body[i] != q && body[i] != '\\',
        trim(body).len() > 0,
    ensures
        classify(key + seq!['=', q] + body + seq![q]) == (LineMeaning::KeyValue {
            key,
            value: trim(body),
        }),
{
    let st0 = initial_state();
    lemma_plain_run(key);
    let st1 = run(st0, key);
    assert(!crate::text::is_blank(key[0]) && !crate::text::is_blank(key[key.len() - 1]));
    assert(trim_start(key) == key);
    assert(trim(key) == key);
    let st2 = step(st1, '=');
    assert(st2.parts =~= seq![key, seq!['=']]);
    let st3 = step(st2, q);
    assert(st3 == (ScanState { quote: Some(q), started: true, ..st2 }));
    lemma_quoted_text_is_content(st3, q, body);
    let st4 = run(st3, body);
    assert(st4.part =~= body);
    let st5 = step(st4, q);
    lemma_run_one(st1, '=');
    lemma_run_one(st2, q);
    lemma_run_one(st4, q);
    lemma_run_append(st0, key, seq!['=']);
    lemma_run_append(st0, key + seq!['='], seq![q]);
    lemma_run_append(st0, key + seq!['='] + seq![q], body);
    lemma_run_append(st0, key + seq!['='] + seq![q] + body, seq![q]);
    assert(key + seq!['=', q] + body + seq![q] =~= key + seq!['='] + seq![q] + body + seq![q]);
    let all = st5.parts.push(trim(st5.part));
    assert(all =~= seq![key, seq!['='], trim(body)]);
    let a1 = all.drop_last();
    let a2 = a1.drop_last();
    assert(a2 =~= seq![key]);
    assert(a2.drop_last() =~= Seq::<Seq<char>>::empty());
    assert(nonempty_parts(a2.drop_last()) == Seq::<Seq<char>>::empty());
    assert(a2.last() == key);
    assert(nonempty_parts(a2) =~= seq![key]);
    assert(a1 =~= seq![key, seq!['=']]);
    assert(nonempty_parts(a1) =~= a1);
    assert(nonempty_parts(all) =~= all);
}

/// The scan of a line ends where it is at position `i`, once halted there.
proof fn lemma_halted_at(line: Seq<char>, i: int)
    requires
        0 <= i <= line.len(),
        halted(run(initial_state(), line.take(i))),
    ensures
        run(initial_state(), line) == run(initial_state(), line.take(i)),
{
    lemma_run_append(initial_state(), line.take(i), line.skip(i));
    assert(line.take(i) + line.skip(i) =~= line);
    lemma_run_halted(run(initial_state(), line.take(i)), line.skip(i));
}

/// The parts, as sequences of characters.
pub open spec fn parts_view(parts: Seq<Vec<char>>) -> Seq<Seq<char>> {
    parts.map_values(|p: Vec<char>| p@)
}

/// `idx` holds the positions of the parts that `nonempty_parts` keeps, in order.
pub open spec fn picks(parts: Seq<Seq<char>>, idx: Seq<usize>) -> bool {
    &&& forall|k: int| 0 <= k < idx.len() ==> #[trigger] idx[k] < parts.len()
    &&& nonempty_parts(parts) == idx.map_values(|x: usize| parts[x as int])
}

/// The positions of the non-empty parts.
fn nonempty_positions(parts: &Vec<Vec<char>>) -> (idx: Vec<usize>)
    ensures
        picks(parts_view(parts@), idx@),
{
    let ghost pv = parts_view(parts@);
    let mut idx: Vec<usize> = Vec::new();
    let mut j: usize = 0;
    while j < parts.len()
        invariant
            0 <= j <= parts@.len(),
            pv == parts_view(parts@),
            forall|k: int| 0 <= k < idx@.len() ==> #[trigger] idx@[k] < j,
            nonempty_parts(pv.take(j as int)) == idx@.map_values(|x: usize| pv[x as int]),
        decreases parts@.len() - j,
    {
        let ghost old_idx = idx@;
        assert(pv.take(j + 1).drop_last() =~= pv.take(j as int));
        if parts[j].len() > 0 {
            idx.push(j);
            assert(idx@.map_values(|x: usize| pv[x as int]) =~= old_idx.map_values(
                |x: usize| pv[x as int],
            ).push(pv[j as int]));
        }
        j = j + 1;
    }
    assert(pv.take(parts@.len() as int) =~= pv);
    idx
}

/// Whether `p` stands in `s` from position `i` on.
fn matches_at(s: &[char], p: &[char], i: usize) -> (r: bool)
    requires
        i + p@.len() <= s@.len(),
    ensures
        r == occurs_at(s@, p@, i as int),
{
    let n = s.len();
    let m = p.len();
    let mut j: usize = 0;
    while j < m
        invariant
            i + m <= n == s@.len(),
            m == p@.len(),
            0 <= j <= m,
            forall|k: int| 0 <= k < j ==> s@[i + k] == p@[k],
        decreases m - j,
    {
        if s[i + j] != p[j] {
            assert(s@.subrange(i as int, i + m)[j as int] != p@[j as int]);
            return false;
        }
        j = j + 1;
    }
    assert(s@.subrange(i as int, i + m) =~= p@);
    true
}

/// Whether `p` stands somewhere in `s`.
pub fn contains_chars(s: &[char], p: &[char]) -> (r: bool)
    ensures
        r == occurs_in(s@, p@),
{
    let n = s.len();
    let m = p.len();
    if m > n {
        assert(forall|i: int| !occurs_at(s@, p@, i));
        return false;
    }
    if m == 0 {
        assert(s@.subrange(0, 0) =~= p@);
        assert(occurs_at(s@, p@, 0));
        return true;
    }
    let mut i: usize = 0;
    while i <= n - m
        invariant
            n == s@.len(),
            m == p@.len(),
            0 < m <= n,
            forall|k: int| 0 <= k < i ==> !occurs_at(s@, p@, k),
        decreases n - m + 1 - i,
    {
        if matches_at(s, p, i) {
            return true;
        }
        i = i + 1;
    }
    assert(forall|k: int| !occurs_at(s@, p@, k));
    false
}

/// Whether `s` starts with `pat` and `pat` does not stand again after that start.
pub fn only_starts_with(s: &[char], pat: &[char]) -> (r: bool)
    ensures
        r == starts_only_with(s@, pat@),
{
    if pat.len() > s.len() {
        return false;
    }
    matches_at(s, pat, 0) && !contains_chars(&s[pat.len()..s.len()], pat)
}

/// Whether `s` ends with `pat` and `pat` does not stand before that end.
pub fn only_ends_with(s: &[char], pat: &[char]) -> (r: bool)
    ensures
        r == ends_only_with(s@, pat@),
{
    if pat.len() > s.len() {
        return false;
    }
    let k = s.len() - pat.len();
    matches_at(s, pat, k) && !contains_chars(&s[0..k], pat)
}

/// The state of the scan as the exec variables hold it.
pub open spec fn holds_state(
    st: ScanState,
    started: bool,
    quote: Option<char>,
    escape: bool,
    parts: Seq<Vec<char>>,
    part: Seq<char>,
) -> bool {
    &&& st.started == started
    &&& st.quote == quote
    &&& st.escape == escape
    &&& st.parts == parts_view(parts)
    &&& st.part == part
    &&& !st.misplaced_quote
}

/// Classifies one line of text: a session header, a key/value pair, nothing,
/// or an error.
pub fn parse_line(line: &str) -> (r: ParseLineResult)
    ensures
        r@ == classify(line@),
{
    let chars = chars_of(line);
    let n = chars.len();
    let mut escape = false;
    let mut quote: Option<char> = None;
    let mut started = false;
    let mut stopped = false;
    let mut parts: Vec<Vec<char>> = Vec::new();
    let mut part: Vec<char> = Vec::new();
    let mut i: usize = 0;
    assert(chars@.take(0) =~= Seq::<char>::empty());
    assert(parts_view(parts@) =~= Seq::<Seq<char>>::empty());
    while i < n && !stopped
        invariant
            0 <= i <= n == chars@.len(),
            chars@ == line@,
            holds_state(
                run(initial_state(), chars@.take(i as int)),
                started,
                quote,
                escape,
                parts@,
                part@,
            ),
            run(initial_state(), chars@.take(i as int)).stopped == stopped,
        decreases n - i + (if stopped { 0int } else { 1int }),
    {
        let ghost st = run(initial_state(), chars@.take(i as int));
        let ghost pv = parts_view(parts@);
        assert(chars@.take(i + 1).drop_last() =~= chars@.take(i as int));
        let c = chars[i];
        if !started && c == ' ' {
        } else if !started && (c == '\'' || c == '"') {
            quote = Some(c);
            started = true;
        } else {
            started = true;
            match quote {
                None => {
                    if escape {
                        if c == '\\' || c == '\'' || c == '"' || c == ';' || c == '#' || c == '=' {
                            part.push(c);
                        } else {
                            part.push('\\');
                            part.push(c);
                        }
                        escape = false;
                    } else if c == '\\' {
                        escape = true;
                    } else if c == '=' {
                        let t = trim_chars(part.as_slice());
                        parts.push(t);
                        let mut marker: Vec<char> = Vec::new();
                        marker.push('=');
                        parts.push(marker);
                        assert(parts_view(parts@) =~= pv.push(trim(st.part)).push(seq!['=']));
                        part = Vec::new();
                        started = false;
                        quote = None;
                    } else if c == ';' || c == '#' {
                        stopped = true;
                    } else if c == '\'' || c == '"' {
                        proof {
                            lemma_halted_at(chars@, i + 1);
                        }
                        return ParseLineResult::ParseError {
                            error: ParseErrorKind::InvalidQuotePosition,
                        };
                    } else {
                        part.push(c);
                    }
                },
                Some(q) => {
                    if escape {
                        if c == q {
                            part.push(c);
                        } else {
                            part.push('\\');
                            part.push(c);
                        }
                        escape = false;
                    } else if c == q {
                        started = false;
                        quote = None;
                    } else if c == '\\' {
                        escape = true;
                    } else {
                        part.push(c);
                    }
                },
            }
        }
        i = i + 1;
        assert(part@ == run(initial_state(), chars@.take(i as int)).part);
    }
    proof {
        if stopped {
            lemma_halted_at(chars@, i as int);
        } else {
            assert(chars@.take(i as int) =~= chars@);
        }
    }
    if quote.is_some() {
        return ParseLineResult::ParseError { error: ParseErrorKind::UnclosedQuote };
    }
    let ghost st = run(initial_state(), chars@);
    let last = trim_chars(part.as_slice());
    parts.push(last);
    let ghost all = st.parts.push(trim(st.part));
    assert(parts_view(parts@) =~= all);
    let idx = nonempty_positions(&parts);
    let ghost ps = nonempty_parts(all);
    assert(ps.len() == idx@.len());
    if idx.len() == 1 {
        let p = &parts[idx[0]];
        assert(ps[0] == p@);
        let ob = ['['];
        let cb = [']'];
        assert(ob@ =~= seq!['[']);
        assert(cb@ =~= seq![']']);
        if only_starts_with(p.as_slice(), ob.as_slice()) && only_ends_with(
            p.as_slice(),
            cb.as_slice(),
        ) {
            assert(p@.len() >= 2) by {
                if p@.len() < 2 {
                    assert(occurs_at(p@, seq!['['], 0));
                    assert(p@.subrange(0, 1)[0] == '[');
                    assert(occurs_at(p@, seq![']'], p@.len() - 1));
                    assert(p@.subrange(p@.len() - 1, p@.len() as int)[0] == ']');
                }
            }
            let inner = &p.as_slice()[1..p.len() - 1];
            assert(inner@ == p@.subrange(1, p@.len() - 1));
            let name = trim_chars(inner);
            let r = ParseLineResult::NewSession { name: string_of(name.as_slice()) };
            assert(r@ == reduce(all));
            r
        } else {
            ParseLineResult::ParseError { error: ParseErrorKind::InvalidSessionNameFormat }
        }
    } else if idx.len() == 3 {
        let k = &parts[idx[0]];
        let eq = &parts[idx[1]];
        let v = &parts[idx[2]];
        assert(ps[0] == k@ && ps[1] == eq@ && ps[2] == v@);
        if eq.len() == 1 && eq[0] == '=' {
            assert(eq@ =~= seq!['=']);
            ParseLineResult::KeyValue {
                key: string_of(k.as_slice()),
                value: string_of(v.as_slice()),
            }
        } else {
            assert(eq@ != seq!['=']) by {
                if eq@ == seq!['='] {
                    assert(eq@[0] == '=');
                }
            }
            ParseLineResult::ParseError { error: ParseErrorKind::InvalidAssignment }
        }
    } else if idx.len() == 0 {
        ParseLineResult::EmptyLine
    } else {
        ParseLineResult::ParseError { error: ParseErrorKind::ExtraKeyOrValue }
    }
}

} // verus!
