use vstd::prelude::*;
use vstd::string::StringExecFns;
use std::collections::BTreeMap;
use itertools::Itertools;

verus! {

/// The texts joined in order, with `sep` between two of them.
pub open spec fn joined(parts: Seq<Seq<char>>, sep: Seq<char>) -> Seq<char>
    decreases parts.len(),
{
    if parts.len() == 0 {
        Seq::empty()
    } else if parts.len() == 1 {
        parts[0]
    } else {
        joined(parts.drop_last(), sep) + sep + parts.last()
    }
}

/// The ids ascend.
pub open spec fn ascending(ids: Seq<usize>) -> bool {
    forall|i: int, j: int| 0 <= i < j < ids.len() ==> ids[i] < ids[j]
}

/// The ids under which the map keeps a text, in ascending order.
pub open spec fn ids_in_order(entries: Map<usize, Seq<char>>) -> Seq<usize> {
    choose|ids: Seq<usize>| ascending(ids) && ids.to_set() == entries.dom()
}

/// Two ascending sequences of the same ids are the same sequence.
pub proof fn lemma_ascending_unique(a: Seq<usize>, b: Seq<usize>)
    requires
        ascending(a),
        ascending(b),
        a.to_set() == b.to_set(),
    ensures
        a == b,
    decreases a.len(),
{
    if a.len() == 0 {
        if b.len() > 0 {
            assert(b.contains(b[0]));
            assert(b.to_set().contains(b[0]));
            assert(a.contains(b[0]));
        }
        assert(a =~= b);
    } else {
        let la = a.last();
        assert(a.contains(a[a.len() - 1]));
        assert(b.to_set().contains(la));
        assert(b.contains(la));
        let lb = b.last();
        assert(b.contains(b[b.len() - 1]));
        assert(a.to_set().contains(lb));
        assert(a.contains(lb));
        let at = choose|at: int| 0 <= at < a.len() && a[at] == lb;
        let bt = choose|bt: int| 0 <= bt < b.len() && b[bt] == la;
        assert(lb <= la) by {
            if at < a.len() - 1 {
                assert(a[at] < a[a.len() - 1]);
            }
        }
        assert(la <= lb) by {
            if bt < b.len() - 1 {
                assert(b[bt] < b[b.len() - 1]);
            }
        }
        let ra = a.drop_last();
        let rb = b.drop_last();
        assert forall|x: usize| ra.to_set().contains(x) <==> rb.to_set().contains(x) by {
            if ra.contains(x) {
                let i = choose|i: int| 0 <= i < ra.len() && ra[i] == x;
                assert(a[i] < a[a.len() - 1]);
                assert(a.contains(a[i]));
                assert(b.to_set().contains(x));
                assert(b.contains(x));
                let j = choose|j: int| 0 <= j < b.len() && b[j] == x;
                assert(j < b.len() - 1);
                assert(rb[j] == x);
            }
            if rb.contains(x) {
                let i = choose|i: int| 0 <= i < rb.len() && rb[i] == x;
                assert(b[i] < b[b.len() - 1]);
                assert(b.contains(b[i]));
                assert(a.to_set().contains(x));
                assert(a.contains(x));
                let j = choose|j: int| 0 <= j < a.len() && a[j] == x;
                assert(j < a.len() - 1);
                assert(ra[j] == x);
            }
        }
        assert(ra.to_set() =~= rb.to_set());
        assert(ascending(ra)) by {
            assert forall|i: int, j: int| 0 <= i < j < ra.len() implies ra[i] < ra[j] by {
                assert(a[i] < a[j]);
            }
        }
        assert(ascending(rb)) by {
            assert forall|i: int, j: int| 0 <= i < j < rb.len() implies rb[i] < rb[j] by {
                assert(b[i] < b[j]);
            }
        }
        lemma_ascending_unique(ra, rb);
        assert(a =~= ra.push(la));
        assert(b =~= rb.push(lb));
    }
}

/// The ids of a map in ascending order are the one ascending sequence that
/// holds exactly its ids.
pub proof fn lemma_ids_in_order(entries: Map<usize, Seq<char>>, ids: Seq<usize>)
    requires
        ascending(ids),
        ids.to_set() == entries.dom(),
    ensures
        ids_in_order(entries) == ids,
{
    lemma_ascending_unique(ids_in_order(entries), ids);
}

/// The texts of the map in ascending order of their ids.
pub open spec fn texts_in_order(entries: Map<usize, Seq<char>>) -> Seq<Seq<char>> {
    Seq::new(ids_in_order(entries).len(), |i: int| entries[ids_in_order(entries)[i]])
}

/// The texts that the map keeps, each under its id.
pub open spec fn text_entries(contexts: Map<usize, String>) -> Map<usize, Seq<char>> {
    contexts.map_values(|text: String| text@)
}

/// `BTreeMap::values` of std hands out the values in ascending order of
/// their keys, and `Itertools::join` of itertools writes the first of them,
/// then for every further one the separator and the value, each by its
/// `Display`, which for a `String` is its text. `join` reserves room for one
/// separator for each item before it starts; the precondition keeps that
/// product within what a `String` can reserve.
#[verifier::external_body]
fn join_texts(contexts: &BTreeMap<usize, String>, sep: &str) -> (out: String)
    requires
        sep@.len() * 4 * contexts@.len() <= isize::MAX,
    ensures
        out@ == joined(texts_in_order(text_entries(contexts@)), sep@),
{
    contexts.values().join(sep)
}

/// Keeps the texts that describe what a test is doing, so that a failing
/// assertion can print them. Each text is kept under the id it was added
/// with, and the texts are printed in ascending order of their ids.
pub struct AssertionContextManager {
    next_id: usize,
    contexts: BTreeMap<usize, String>,
}

/// What the manager holds: the next id, and the texts under their ids.
pub ghost struct AssertionContextView {
    pub next_id: usize,
    pub entries: Map<usize, Seq<char>>,
}

/// What `context` prints for the entries: a line break, the texts in
/// ascending order of their ids with a line break between two of them, and
/// a line break.
pub open spec fn printed(entries: Map<usize, Seq<char>>) -> Seq<char> {
    seq!['\n'] + joined(texts_in_order(entries), seq!['\n']) + seq!['\n']
}

impl View for AssertionContextManager {
    type V = AssertionContextView;

    closed spec fn view(&self) -> AssertionContextView {
        AssertionContextView { next_id: self.next_id, entries: text_entries(self.contexts@) }
    }
}

impl AssertionContextManager {
    /// A manager without texts, whose first id is 0.
    pub fn new() -> (m: Self)
        ensures
            m@ == (AssertionContextView { next_id: 0, entries: Map::empty() }),
    {
        let m = AssertionContextManager { next_id: 0, contexts: BTreeMap::new() };
        assert(m@.entries =~= Map::empty());
        m
    }

    /// Keeps the text and returns the id it is kept under. Ids are given in
    /// order and start again at 0 after the highest one; a text that is
    /// still kept under the id is replaced.
    pub fn add_context(&mut self, context: String) -> (id: usize)
        ensures
            id == old(self)@.next_id,
            final(self)@.next_id == if id == usize::MAX {
                0
            } else {
                id + 1
            },
            final(self)@.entries == old(self)@.entries.insert(id, context@),
    {
        let id: usize = self.next_id;
        let ghost before = self.contexts@;
        let _replaced = self.contexts.insert(id, context);
        proof {
            assert(self.contexts@ == before.insert(id, context));
            assert(text_entries(self.contexts@) =~= text_entries(before).insert(id, context@));
        }
        self.next_id = if id == usize::MAX {
            0
        } else {
            id + 1
        };
        id
    }

    /// Gives up the text kept under the id, if there is one.
    pub fn remove_context(&mut self, id: usize)
        ensures
            final(self)@.next_id == old(self)@.next_id,
            final(self)@.entries == old(self)@.entries.remove(id),
    {
        let ghost before = self.contexts@;
        let _gone = self.contexts.remove(&id);
        proof {
            assert(self.contexts@ == before.remove(id));
            assert(text_entries(self.contexts@) =~= text_entries(before).remove(id));
        }
    }

    /// The number of texts kept.
    pub fn count(&self) -> (n: usize)
        ensures
            n == self@.entries.len(),
    {
        proof {
            assert(text_entries(self.contexts@).dom() =~= self.contexts@.dom());
        }
        self.contexts.len()
    }

    /// The texts for a failing assertion: a line break, the texts in
    /// ascending order of their ids with a line break between two of them,
    /// and a line break.
    pub fn context(&self) -> (out: String)
        requires
            self@.entries.len() * 4 <= isize::MAX,
        ensures
            out@ == printed(self@.entries),
    {
        proof {
            reveal_strlit("\n");
            assert("\n"@ =~= seq!['\n']);
            assert(text_entries(self.contexts@).dom() =~= self.contexts@.dom());
            let width = "\n"@.len();
            let count = self.contexts@.len();
            assert(width * 4 * count <= isize::MAX) by (nonlinear_arith)
                requires
                    width == 1,
                    count * 4 <= isize::MAX,
            ;
        }
        let body = join_texts(&self.contexts, "\n");
        let mut out = String::new();
        out.push('\n');
        out.append(body.as_str());
        out.push('\n');
        proof {
            assert(out@ =~= printed(self@.entries));
        }
        out
    }
}

} // verus!
