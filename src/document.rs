use vstd::prelude::*;
use crate::scan::{ParseErrorKind, LineMeaning, classify, parse_line, ParseLineResult};
use crate::assoc::{unique_keys, has_key, assoc_map, lemma_assoc_at, lemma_assoc_update, lemma_assoc_push, lemma_assoc_len, find_key};

verus! {

/// The pairs of one session, each key at most once.
pub struct Session {
    entries: Vec<(String, String)>,
}

/// The view of a value text.
pub open spec fn text_view(s: String) -> Seq<char> {
    s@
}

impl View for Session {
    type V = Map<Seq<char>, Seq<char>>;

    closed spec fn view(&self) -> Map<Seq<char>, Seq<char>> {
        assoc_map(self.entries@, |v: String| text_view(v))
    }
}

impl Session {
    #[verifier::type_invariant]
    spec fn inv(self) -> bool {
        unique_keys(self.entries@)
    }

    /// A session with no pairs.
    pub fn new() -> (r: Session)
        ensures
            r@ == Map::<Seq<char>, Seq<char>>::empty(),
    {
        let r = Session { entries: Vec::new() };
        assert(r@ =~= Map::<Seq<char>, Seq<char>>::empty());
        r
    }

    /// Sets `key` to `value`, replacing an earlier value of `key`.
    pub fn insert(&mut self, key: String, value: String)
        ensures
            final(self)@ == old(self)@.insert(key@, value@),
    {
        proof {
            use_type_invariant(&*self);
        }
        let ghost f = |v: String| text_view(v);
        let mut entries: Vec<(String, String)> = Vec::new();
        std::mem::swap(&mut self.entries, &mut entries);
        let ghost s = entries@;
        match find_key(&entries, &key) {
            Some(j) => {
                proof {
                    lemma_assoc_update(s, f, j as int, (key, value));
                }
                entries.set(j, (key, value));
            },
            None => {
                proof {
                    lemma_assoc_push(s, f, (key, value));
                }
                entries.push((key, value));
            },
        }
        self.entries = entries;
    }

    /// The value of `key`, if the session has one.
    pub fn get(&self, key: &str) -> (r: Option<&String>)
        ensures
            match r {
                Some(v) => self@.contains_key(key@) && v@ == self@[key@],
                None => !self@.contains_key(key@),
            },
    {
        proof {
            use_type_invariant(self);
        }
        let k = key.to_owned();
        match find_key(&self.entries, &k) {
            Some(j) => {
                proof {
                    lemma_assoc_at(self.entries@, |v: String| text_view(v), j as int);
                }
                Some(&self.entries[j].1)
            },
            None => None,
        }
    }

    /// The number of pairs.
    pub fn len(&self) -> (r: usize)
        ensures
            r == self@.len(),
    {
        proof {
            use_type_invariant(self);
            lemma_assoc_len(self.entries@, |v: String| text_view(v));
        }
        self.entries.len()
    }
}

/// A whole document: the sessions by name, each name at most once.
pub struct Ini {
    sessions: Vec<(String, Session)>,
}

/// The view of a session.
pub open spec fn session_view(s: Session) -> Map<Seq<char>, Seq<char>> {
    s@
}

impl View for Ini {
    type V = Map<Seq<char>, Map<Seq<char>, Seq<char>>>;

    closed spec fn view(&self) -> Map<Seq<char>, Map<Seq<char>, Seq<char>>> {
        assoc_map(self.sessions@, |s: Session| session_view(s))
    }
}

impl Ini {
    #[verifier::type_invariant]
    spec fn inv(self) -> bool {
        unique_keys(self.sessions@)
    }

    /// A document with no sessions.
    pub fn new() -> (r: Ini)
        ensures
            r@ == Map::<Seq<char>, Map<Seq<char>, Seq<char>>>::empty(),
    {
        let r = Ini { sessions: Vec::new() };
        assert(r@ =~= Map::<Seq<char>, Map<Seq<char>, Seq<char>>>::empty());
        r
    }

    /// Stores `session` under `name`, replacing whatever stood there.
    pub fn insert(&mut self, name: String, session: Session)
        ensures
            final(self)@ == old(self)@.insert(name@, session@),
    {
        proof {
            use_type_invariant(&*self);
        }
        let ghost f = |s: Session| session_view(s);
        let mut sessions: Vec<(String, Session)> = Vec::new();
        std::mem::swap(&mut self.sessions, &mut sessions);
        let ghost s = sessions@;
        match find_key(&sessions, &name) {
            Some(j) => {
                proof {
                    lemma_assoc_update(s, f, j as int, (name, session));
                }
                sessions.set(j, (name, session));
            },
            None => {
                proof {
                    lemma_assoc_push(s, f, (name, session));
                }
                sessions.push((name, session));
            },
        }
        self.sessions = sessions;
    }

    /// The session named `name`, if there is one.
    pub fn session(&self, name: &str) -> (r: Option<&Session>)
        ensures
            match r {
                Some(s) => self@.contains_key(name@) && s@ == self@[name@],
                None => !self@.contains_key(name@),
            },
    {
        proof {
            use_type_invariant(self);
        }
        let k = name.to_owned();
        match find_key(&self.sessions, &k) {
            Some(j) => {
                proof {
                    lemma_assoc_at(self.sessions@, |s: Session| session_view(s), j as int);
                }
                Some(&self.sessions[j].1)
            },
            None => None,
        }
    }

    /// The number of sessions.
    pub fn len(&self) -> (r: usize)
        ensures
            r == self@.len(),
    {
        proof {
            use_type_invariant(self);
            lemma_assoc_len(self.sessions@, |s: Session| session_view(s));
        }
        self.sessions.len()
    }
}

/// A rejected line: its number, counted from 1, and why.
#[derive(Clone, Copy, Debug, PartialEq, Eq, Structural)]
pub struct ParseError {
    pub line: usize,
    pub kind: ParseErrorKind,
}

/// A document as maps of texts.
pub type DocView = Map<Seq<char>, Map<Seq<char>, Seq<char>>>;

/// Where the assembly of a document stands after some lines.
pub enum Assembly {
    /// The sessions closed so far, and the open one with its name.
    Open { doc: DocView, name: Seq<char>, session: Map<Seq<char>, Seq<char>> },
    /// A line was rejected.
    Failed { error: ParseError },
}

/// Before any line: the unnamed session is open and empty.
pub open spec fn start() -> Assembly {
    Assembly::Open { doc: Map::empty(), name: Seq::empty(), session: Map::empty() }
}

/// The assembly after the line at position `n` (from 0).
pub open spec fn fold_line(a: Assembly, n: nat, line: Seq<char>) -> Assembly {
    match a {
        Assembly::Failed { .. } => a,
        Assembly::Open { doc, name, session } => match classify(line) {
            LineMeaning::NewSession { name: next } => Assembly::Open {
                doc: doc.insert(name, session),
                name: next,
                session: Map::empty(),
            },
            LineMeaning::EmptyLine => a,
            LineMeaning::KeyValue { key, value } => Assembly::Open {
                doc,
                name,
                session: session.insert(key, value),
            },
            LineMeaning::ParseError { error } => Assembly::Failed {
                error: ParseError { line: (n + 1) as usize, kind: error },
            },
        },
    }
}

/// The assembly after all of `lines`.
pub open spec fn assemble(lines: Seq<Seq<char>>) -> Assembly
    decreases lines.len(),
{
    if lines.len() == 0 {
        start()
    } else {
        fold_line(assemble(lines.drop_last()), (lines.len() - 1) as nat, lines.last())
    }
}

/// The document once the input ends: the open session is stored too.
pub open spec fn finish_doc(a: Assembly) -> Result<DocView, ParseError> {
    match a {
        Assembly::Open { doc, name, session } => Ok(doc.insert(name, session)),
        Assembly::Failed { error } => Err(error),
    }
}

/// The document that `lines` make, or the first error in them.
pub open spec fn load(lines: Seq<Seq<char>>) -> Result<DocView, ParseError> {
    finish_doc(assemble(lines))
}

/// The lines as texts.
pub open spec fn lines_view(lines: Seq<String>) -> Seq<Seq<char>> {
    lines.map_values(|s: String| s@)
}

/// Builds a document from lines handed over one at a time.
pub struct Loader {
    ini: Ini,
    name: String,
    session: Session,
    read: usize,
}

impl Loader {
    /// Where the assembly stands.
    pub closed spec fn state(&self) -> Assembly {
        Assembly::Open { doc: self.ini@, name: self.name@, session: self.session@ }
    }

    /// How many lines were taken.
    pub closed spec fn lines_read(&self) -> nat {
        self.read as nat
    }

    /// A loader that has read nothing.
    pub fn new() -> (r: Loader)
        ensures
            r.state() == start(),
            r.lines_read() == 0,
    {
        Loader { ini: Ini::new(), name: String::new(), session: Session::new(), read: 0 }
    }

    /// Takes the next line. On an error nothing changes.
    pub fn feed(&mut self, line: &str) -> (r: Result<(), ParseError>)
        requires
            old(self).lines_read() < usize::MAX,
        ensures
            match fold_line(old(self).state(), old(self).lines_read(), line@) {
                Assembly::Failed { error } => r == Err::<(), ParseError>(error) && *final(self)
                    == *old(self),
                a => r is Ok && final(self).state() == a && final(self).lines_read()
                    == old(self).lines_read() + 1,
            },
    {
        match parse_line(line) {
            ParseLineResult::NewSession { name } => {
                let mut next = Session::new();
                std::mem::swap(&mut self.session, &mut next);
                let mut next_name = name;
                std::mem::swap(&mut self.name, &mut next_name);
                self.ini.insert(next_name, next);
            },
            ParseLineResult::EmptyLine => {},
            ParseLineResult::KeyValue { key, value } => {
                self.session.insert(key, value);
            },
            ParseLineResult::ParseError { error } => {
                return Err(ParseError { line: self.read + 1, kind: error });
            },
        }
        self.read = self.read + 1;
        Ok(())
    }

    /// The finished document: the open session is stored too.
    pub fn finish(self) -> (r: Ini)
        ensures
            finish_doc(self.state()) == Ok::<DocView, ParseError>(r@),
    {
        let mut ini = self.ini;
        ini.insert(self.name, self.session);
        ini
    }
}

/// Parses a whole text given as its lines: the document, or the first
/// rejected line.
pub fn parse_lines(lines: &Vec<String>) -> (r: Result<Ini, ParseError>)
    requires
        lines@.len() < usize::MAX,
    ensures
        match r {
            Ok(ini) => load(lines_view(lines@)) == Ok::<DocView, ParseError>(ini@),
            Err(e) => load(lines_view(lines@)) == Err::<DocView, ParseError>(e),
        },
{
    let ghost lv = lines_view(lines@);
    let mut loader = Loader::new();
    let mut i: usize = 0;
    while i < lines.len()
        invariant
            0 <= i <= lines@.len() < usize::MAX,
            lv == lines_view(lines@),
            loader.lines_read() == i,
            loader.state() == assemble(lv.take(i as int)),
        decreases lines@.len() - i,
    {
        assert(lv.take(i + 1).drop_last() =~= lv.take(i as int));
        match loader.feed(lines[i].as_str()) {
            Ok(()) => {},
            Err(e) => {
                proof {
                    lemma_failed_stays(lv, i as int + 1);
                }
                return Err(e);
            },
        }
        i = i + 1;
    }
    assert(lv.take(i as int) =~= lv);
    Ok(loader.finish())
}

/// Once a line is rejected, later lines change nothing.
pub proof fn lemma_failed_stays(lines: Seq<Seq<char>>, i: int)
    requires
        0 <= i <= lines.len(),
        assemble(lines.take(i)) is Failed,
    ensures
        assemble(lines) == assemble(lines.take(i)),
    decreases lines.len() - i,
{
    if i < lines.len() {
        assert(lines.take(i + 1).drop_last() =~= lines.take(i));
        lemma_failed_stays(lines, i + 1);
    } else {
        assert(lines.take(i) =~= lines);
    }
}

} // verus!
