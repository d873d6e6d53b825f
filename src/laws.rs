use vstd::prelude::*;
use crate::scan::{LineMeaning, classify};
use crate::document::{Assembly, assemble, load};

verus! {

/// The name of the last header among `lines`, or the empty name if there is none.
pub open spec fn last_header(lines: Seq<Seq<char>>) -> Seq<char>
    decreases lines.len(),
{
    if lines.len() == 0 {
        Seq::empty()
    } else {
        match classify(lines.last()) {
            LineMeaning::NewSession { name } => name,
            _ => last_header(lines.drop_last()),
        }
    }
}

/// The pairs that `lines` set, later ones winning.
pub open spec fn pairs_of(lines: Seq<Seq<char>>) -> Map<Seq<char>, Seq<char>>
    decreases lines.len(),
{
    if lines.len() == 0 {
        Map::empty()
    } else {
        match classify(lines.last()) {
            LineMeaning::KeyValue { key, value } => pairs_of(lines.drop_last()).insert(key, value),
            _ => pairs_of(lines.drop_last()),
        }
    }
}

/// No line of `lines` is a header.
pub open spec fn no_header(lines: Seq<Seq<char>>) -> bool {
    forall|i: int| 0 <= i < lines.len() ==> !(classify(#[trigger] lines[i]) is NewSession)
}

/// Loading is a function of the lines alone: equal lines give an equal
/// document, or an equal error at the same line.
pub proof fn lemma_load_deterministic(a: Seq<Seq<char>>, b: Seq<Seq<char>>)
    requires
        a == b,
    ensures
        load(a) == load(b),
{
}

proof fn lemma_open_has_unnamed(lines: Seq<Seq<char>>)
    ensures
        match assemble(lines) {
            Assembly::Open { doc, name, .. } => name == Seq::<char>::empty() || doc.contains_key(
                Seq::<char>::empty(),
            ),
            Assembly::Failed { .. } => true,
        },
    decreases lines.len(),
{
    if lines.len() > 0 {
        lemma_open_has_unnamed(lines.drop_last());
    }
}

/// Every document that loads holds the unnamed session, even one of no lines.
pub proof fn lemma_unnamed_session_present(lines: Seq<Seq<char>>)
    ensures
        load(lines) is Ok ==> load(lines)->Ok_0.contains_key(Seq::<char>::empty()),
{
    lemma_open_has_unnamed(lines);
}

proof fn lemma_open_name_is_last_header(lines: Seq<Seq<char>>)
    ensures
        assemble(lines) is Open ==> assemble(lines)->Open_name == last_header(lines),
    decreases lines.len(),
{
    if lines.len() > 0 {
        lemma_open_name_is_last_header(lines.drop_last());
    }
}

/// A pair belongs to the session of the last header before it, or to the
/// unnamed session when no header comes before it.
pub proof fn lemma_pair_in_latest_session(
    lines: Seq<Seq<char>>,
    line: Seq<char>,
    key: Seq<char>,
    value: Seq<char>,
)
    requires
        classify(line) == (LineMeaning::KeyValue { key, value }),
        load(lines.push(line)) is Ok,
    ensures
        load(lines.push(line))->Ok_0.contains_key(last_header(lines)),
        load(lines.push(line))->Ok_0[last_header(lines)].contains_key(key),
        load(lines.push(line))->Ok_0[last_header(lines)][key] == value,
{
    lemma_open_name_is_last_header(lines);
    assert(lines.push(line).drop_last() =~= lines);
}

proof fn lemma_session_after_header(
    before: Seq<Seq<char>>,
    header: Seq<char>,
    name: Seq<char>,
    after: Seq<Seq<char>>,
)
    requires
        classify(header) == (LineMeaning::NewSession { name }),
        no_header(after),
    ensures
        assemble(before.push(header) + after) is Open ==> assemble(before.push(header) + after)->Open_name
            == name && assemble(before.push(header) + after)->Open_session == pairs_of(after),
    decreases after.len(),
{
    let all = before.push(header) + after;
    if after.len() == 0 {
        assert(all =~= before.push(header));
        assert(before.push(header).drop_last() =~= before);
    } else {
        let rest = after.drop_last();
        assert(no_header(rest)) by {
            assert forall|i: int| 0 <= i < rest.len() implies !(classify(
                #[trigger] rest[i],
            ) is NewSession) by {
                assert(rest[i] == after[i]);
            }
        }
        lemma_session_after_header(before, header, name, rest);
        assert(all.drop_last() =~= before.push(header) + rest);
        assert(all.last() == after.last());
        assert(!(classify(after[after.len() - 1]) is NewSession));
    }
}

/// A header that names a session again starts it afresh: in the document,
/// that session holds only the pairs after its last header.
pub proof fn lemma_redeclared_session_replaced(
    before: Seq<Seq<char>>,
    header: Seq<char>,
    name: Seq<char>,
    after: Seq<Seq<char>>,
)
    requires
        classify(header) == (LineMeaning::NewSession { name }),
        no_header(after),
        load(before.push(header) + after) is Ok,
    ensures
        load(before.push(header) + after)->Ok_0[name] == pairs_of(after),
{
    lemma_session_after_header(before, header, name, after);
}

} // verus!
