use vstd::prelude::*;
use crate::pipeline::{FileState, StateView};

verus! {

/// One tracked file: its identity (the bytes of its path) and the last state
/// applied to it.
pub struct Entry {
    pub identity: Vec<u8>,
    pub state: FileState,
}

impl View for Entry {
    type V = (Seq<u8>, StateView);

    open spec fn view(&self) -> (Seq<u8>, StateView) {
        (self.identity@, self.state@)
    }
}

/// The identity has an entry.
pub open spec fn is_registered(v: Seq<(Seq<u8>, StateView)>, id: Seq<u8>) -> bool {
    exists|i: int| 0 <= i < v.len() && #[trigger] v[i].0 == id
}

/// No identity is tracked twice.
pub open spec fn unique_ids(v: Seq<(Seq<u8>, StateView)>) -> bool {
    forall|i: int, j: int| 0 <= i < j < v.len() ==> #[trigger] v[i].0 != #[trigger] v[j].0
}

/// Registering a file: a regular file that is not tracked yet is appended in
/// `Pending`; anything else leaves the entries as they are.
pub open spec fn begin_spec(v: Seq<(Seq<u8>, StateView)>, id: Seq<u8>, is_file: bool) -> Seq<
    (Seq<u8>, StateView),
> {
    if is_file && !is_registered(v, id) {
        v.push((id, StateView::Pending))
    } else {
        v
    }
}

/// The identities that need a running pipeline: every entry not yet
/// `Completed`, in order.
pub open spec fn active_ids(v: Seq<(Seq<u8>, StateView)>) -> Seq<Seq<u8>>
    decreases v.len(),
{
    if v.len() == 0 {
        Seq::empty()
    } else {
        let rest = active_ids(v.drop_last());
        if v.last().1 is Completed {
            rest
        } else {
            rest.push(v.last().0)
        }
    }
}

/// The aggregate progress shown for the whole set: the lowest percentage
/// among tasks in progress, where a running value of 0 counts as not yet set
/// and is replaced by the next task's percentage. 0 when nothing is in
/// progress.
pub open spec fn overall_progress_of(v: Seq<(Seq<u8>, StateView)>) -> nat
    decreases v.len(),
{
    if v.len() == 0 {
        0
    } else {
        let acc = overall_progress_of(v.drop_last());
        match v.last().1 {
            StateView::InProgress(p) => if acc == 0 {
                p
            } else if p < acc {
                p
            } else {
                acc
            },
            _ => acc,
        }
    }
}

/// Every identity that needs a pipeline belongs to an entry that has not completed.
proof fn lemma_active_from_entries(v: Seq<(Seq<u8>, StateView)>)
    ensures
        forall|k: int|
            0 <= k < active_ids(v).len() ==> exists|j: int|
                0 <= j < v.len() && v[j].0 == #[trigger] active_ids(v)[k] && !(v[j].1 is Completed),
    decreases v.len(),
{
    if v.len() > 0 {
        let w = v.drop_last();
        lemma_active_from_entries(w);
        assert forall|k: int| 0 <= k < active_ids(v).len() implies exists|j: int|
            0 <= j < v.len() && v[j].0 == #[trigger] active_ids(v)[k] && !(v[j].1 is Completed) by {
            if k < active_ids(w).len() {
                assert(active_ids(v)[k] == active_ids(w)[k]);
                let j = choose|j: int|
                    0 <= j < w.len() && w[j].0 == active_ids(w)[k] && !(w[j].1 is Completed);
                assert(v[j] == w[j]);
            } else {
                assert(v[v.len() - 1] == v.last());
            }
        }
    }
}

/// With identities unique, no identity needs two pipelines.
proof fn lemma_active_unique(v: Seq<(Seq<u8>, StateView)>)
    requires
        unique_ids(v),
    ensures
        forall|i: int, j: int|
            0 <= i < j < active_ids(v).len() ==> active_ids(v)[i] != active_ids(v)[j],
    decreases v.len(),
{
    if v.len() > 0 {
        let w = v.drop_last();
        assert(unique_ids(w)) by {
            assert forall|i: int, j: int| 0 <= i < j < w.len() implies #[trigger] w[i].0
                != #[trigger] w[j].0 by {
                assert(w[i] == v[i] && w[j] == v[j]);
            }
        }
        lemma_active_unique(w);
        lemma_active_from_entries(w);
        if !(v.last().1 is Completed) {
            let a = active_ids(v);
            assert forall|i: int, j: int| 0 <= i < j < a.len() implies a[i] != a[j] by {
                if j == a.len() - 1 {
                    assert(a[i] == active_ids(w)[i]);
                    let k = choose|k: int|
                        0 <= k < w.len() && w[k].0 == #[trigger] active_ids(w)[i] && !(
                        w[k].1 is Completed);
                    assert(v[k] == w[k]);
                    assert(v[k].0 != v[v.len() - 1].0);
                } else {
                    assert(a[i] == active_ids(w)[i] && a[j] == active_ids(w)[j]);
                }
            }
        }
    }
}

/// Registering the same file twice does exactly what registering it once
/// does, and never makes one identity need two pipelines at once.
pub proof fn lemma_register_twice(v: Seq<(Seq<u8>, StateView)>, id: Seq<u8>, is_file: bool)
    requires
        unique_ids(v),
    ensures
        begin_spec(begin_spec(v, id, is_file), id, is_file) == begin_spec(v, id, is_file),
        unique_ids(begin_spec(v, id, is_file)),
        forall|i: int, j: int|
            0 <= i < j < active_ids(begin_spec(v, id, is_file)).len() ==> active_ids(
                begin_spec(v, id, is_file),
            )[i] != active_ids(begin_spec(v, id, is_file))[j],
{
    let w = begin_spec(v, id, is_file);
    if is_file && !is_registered(v, id) {
        assert(w[v.len() as int].0 == id);
        assert(is_registered(w, id));
        assert(unique_ids(w)) by {
            assert forall|i: int, j: int| 0 <= i < j < w.len() implies #[trigger] w[i].0
                != #[trigger] w[j].0 by {
                if j == v.len() {
                    assert(w[i] == v[i]);
                } else {
                    assert(w[i] == v[i] && w[j] == v[j]);
                }
            }
        }
    }
    lemma_active_unique(w);
}

/// A file whose entry has completed is never hashed again: registering it
/// once more changes nothing, and it needs no pipeline.
pub proof fn lemma_completed_not_rerun(v: Seq<(Seq<u8>, StateView)>, id: Seq<u8>, is_file: bool)
    requires
        unique_ids(v),
        exists|i: int| 0 <= i < v.len() && v[i].0 == id && v[i].1 is Completed,
    ensures
        begin_spec(v, id, is_file) == v,
        !active_ids(v).contains(id),
{
    let i = choose|i: int| 0 <= i < v.len() && v[i].0 == id && v[i].1 is Completed;
    assert(is_registered(v, id));
    lemma_active_from_entries(v);
    if active_ids(v).contains(id) {
        let k = choose|k: int| 0 <= k < active_ids(v).len() && active_ids(v)[k] == id;
        let j = choose|j: int|
            0 <= j < v.len() && v[j].0 == #[trigger] active_ids(v)[k] && !(v[j].1 is Completed);
        assert(j != i);
        if i < j {
            assert(v[i].0 != v[j].0);
        } else {
            assert(v[j].0 != v[i].0);
        }
    }
}

/// How the digest at `index` compares with the first entry's digest: `None`
/// unless both entries exist and have completed.
pub open spec fn match_with_first(v: Seq<(Seq<u8>, StateView)>, index: int) -> Option<bool> {
    if v.len() > 0 && 0 <= index < v.len() {
        match (v[0].1, v[index].1) {
            (StateView::Completed(a), StateView::Completed(b)) => Some(a == b),
            _ => None,
        }
    } else {
        None
    }
}

/// The two strings hold the same characters.
pub fn same_text(a: &String, b: &String) -> (r: bool)
    ensures
        r == (a@ == b@),
{
    let x = a.as_str().as_bytes();
    let y = b.as_str().as_bytes();
    let r = same_bytes(x, y);
    proof {
        vstd::utf8::encode_utf8_decode_utf8(a@);
        vstd::utf8::encode_utf8_decode_utf8(b@);
    }
    r
}

/// The bytes are equal.
pub fn same_bytes(a: &[u8], b: &[u8]) -> (r: bool)
    ensures
        r == (a@ == b@),
{
    if a.len() != b.len() {
        return false;
    }
    let mut i: usize = 0;
    while i < a.len()
        invariant
            a@.len() == b@.len(),
            i <= a@.len(),
            a@.subrange(0, i as int) == b@.subrange(0, i as int),
        decreases a@.len() - i,
    {
        if a[i] != b[i] {
            assert(a@[i as int] != b@[i as int]);
            return false;
        }
        assert(a@.subrange(0, i + 1) =~= a@.subrange(0, i as int).push(a@[i as int]));
        assert(b@.subrange(0, i + 1) =~= b@.subrange(0, i as int).push(b@[i as int]));
        i = i + 1;
    }
    assert(a@ =~= a@.subrange(0, i as int));
    assert(b@ =~= b@.subrange(0, i as int));
    true
}

/// The set of tracked files, in the order they were registered, each with
/// the last state applied to it.
pub struct Registry {
    entries: Vec<Entry>,
}

impl View for Registry {
    type V = Seq<(Seq<u8>, StateView)>;

    closed spec fn view(&self) -> Seq<(Seq<u8>, StateView)> {
        self.entries@.map_values(|e: Entry| e@)
    }
}

impl Registry {
    pub open spec fn wf(&self) -> bool {
        unique_ids(self@)
    }

    /// An empty registry.
    pub fn new() -> (r: Registry)
        ensures
            r.wf(),
            r@ == Seq::<(Seq<u8>, StateView)>::empty(),
    {
        let r = Registry { entries: Vec::new() };
        assert(r@ =~= Seq::<(Seq<u8>, StateView)>::empty());
        r
    }

    /// The number of tracked files.
    pub fn len(&self) -> (r: usize)
        ensures
            r == self@.len(),
    {
        self.entries.len()
    }

    /// The entry at `index`, in registration order.
    pub fn entry(&self, index: usize) -> (r: &Entry)
        requires
            index < self@.len(),
        ensures
            r@ == self@[index as int],
    {
        &self.entries[index]
    }

    /// The position of the entry for `id`, if it is tracked.
    pub fn find(&self, id: &[u8]) -> (r: Option<usize>)
        requires
            self.wf(),
        ensures
            r is None <==> !is_registered(self@, id@),
            r matches Some(i) ==> i < self@.len() && self@[i as int].0 == id@,
    {
        let mut i: usize = 0;
        while i < self.entries.len()
            invariant
                i <= self@.len(),
                self@.len() == self.entries@.len(),
                forall|k: int| 0 <= k < i ==> self@[k].0 != id@,
            decreases self@.len() - i,
        {
            proof {
                assert(self@[i as int] == self.entries@[i as int]@);
            }
            if same_bytes(self.entries[i].identity.as_slice(), id) {
                assert(self@[i as int].0 == id@);
                return Some(i);
            }
            i = i + 1;
        }
        None
    }

    /// Registers a file for hashing when it is a regular file and not yet
    /// tracked; otherwise does nothing. Returns whether it was added.
    pub fn begin(&mut self, id: &[u8], is_file: bool) -> (r: bool)
        requires
            old(self).wf(),
        ensures
            final(self).wf(),
            final(self)@ == begin_spec(old(self)@, id@, is_file),
            r == (is_file && !is_registered(old(self)@, id@)),
            is_registered(final(self)@, id@) == (is_file || is_registered(old(self)@, id@)),
    {
        if !is_file {
            return false;
        }
        match self.find(id) {
            Some(_) => false,
            None => {
                let ghost before = self@;
                let identity = vstd::slice::slice_to_vec(id);
                self.entries.push(Entry { identity, state: FileState::Pending });
                assert(self@ =~= before.push((id@, StateView::Pending)));
                assert(self@[before.len() as int].0 == id@);
                true
            },
        }
    }

    /// Applies an event from the pipeline of `id` to its entry. An identity
    /// that is no longer tracked is ignored.
    pub fn apply(&mut self, id: &[u8], state: FileState)
        requires
            old(self).wf(),
        ensures
            final(self).wf(),
            final(self)@.len() == old(self)@.len(),
            forall|i: int|
                0 <= i < old(self)@.len() ==> #[trigger] final(self)@[i] == (if old(self)@[i].0
                    == id@ {
                    (id@, state@)
                } else {
                    old(self)@[i]
                }),
    {
        match self.find(id) {
            None => {},
            Some(i) => {
                let ghost before = self@;
                let e = self.entries.remove(i);
                let ne = Entry { identity: e.identity, state };
                self.entries.insert(i, ne);
                assert(self@ =~= before.update(i as int, (id@, state@)));
            },
        }
    }

    /// Stops tracking `id`; its further events are no longer applied.
    pub fn remove(&mut self, id: &[u8])
        requires
            old(self).wf(),
        ensures
            final(self).wf(),
            !is_registered(final(self)@, id@),
            !is_registered(old(self)@, id@) ==> final(self)@ == old(self)@,
            is_registered(old(self)@, id@) ==> exists|i: int|
                0 <= i < old(self)@.len() && old(self)@[i].0 == id@ && final(self)@ == old(
                    self,
                )@.remove(i),
    {
        match self.find(id) {
            None => {},
            Some(i) => {
                let ghost before = self@;
                let _ = self.entries.remove(i);
                assert(self@ =~= before.remove(i as int));
                assert(!is_registered(self@, id@)) by {
                    assert forall|k: int| 0 <= k < self@.len() implies #[trigger] self@[k].0
                        != id@ by {
                        if k < i {
                            assert(self@[k] == before[k]);
                        } else {
                            assert(self@[k] == before[k + 1]);
                        }
                    }
                }
            },
        }
    }

    /// The identities whose pipeline must run: every entry not yet
    /// `Completed`, in registration order, each once.
    pub fn active(&self) -> (r: Vec<Vec<u8>>)
        requires
            self.wf(),
        ensures
            r@.map_values(|x: Vec<u8>| x@) == active_ids(self@),
            forall|i: int, j: int| 0 <= i < j < r@.len() ==> r@[i]@ != r@[j]@,
    {
        let mut out: Vec<Vec<u8>> = Vec::new();
        let mut i: usize = 0;
        while i < self.entries.len()
            invariant
                i <= self@.len(),
                self@.len() == self.entries@.len(),
                out@.map_values(|x: Vec<u8>| x@) == active_ids(self@.subrange(0, i as int)),
            decreases self@.len() - i,
        {
            let ghost before = out@;
            proof {
                assert(self@.subrange(0, i + 1).drop_last() =~= self@.subrange(0, i as int));
                assert(self@[i as int] == self.entries@[i as int]@);
            }
            let e = &self.entries[i];
            let done = match &e.state {
                FileState::Completed { .. } => true,
                _ => false,
            };
            if !done {
                out.push(vstd::slice::slice_to_vec(e.identity.as_slice()));
                assert(out@.map_values(|x: Vec<u8>| x@) =~= before.map_values(|x: Vec<u8>| x@).push(
                    e.identity@,
                ));
            }
            i = i + 1;
        }
        proof {
            assert(self@.subrange(0, i as int) =~= self@);
            lemma_active_unique(self@);
            assert forall|i: int, j: int| 0 <= i < j < out@.len() implies out@[i]@ != out@[j]@ by {
                assert(out@.map_values(|x: Vec<u8>| x@)[i] == out@[i]@);
                assert(out@.map_values(|x: Vec<u8>| x@)[j] == out@[j]@);
            }
        }
        out
    }

    /// The aggregate progress of the tasks in progress (see `overall_progress_of`).
    pub fn overall_progress(&self) -> (r: u64)
        ensures
            r == overall_progress_of(self@),
    {
        let mut acc: u64 = 0;
        let mut i: usize = 0;
        while i < self.entries.len()
            invariant
                i <= self@.len(),
                self@.len() == self.entries@.len(),
                acc == overall_progress_of(self@.subrange(0, i as int)),
            decreases self@.len() - i,
        {
            proof {
                assert(self@.subrange(0, i + 1).drop_last() =~= self@.subrange(0, i as int));
                assert(self@[i as int] == self.entries@[i as int]@);
            }
            match &self.entries[i].state {
                FileState::InProgress { percent } => {
                    if acc == 0 || *percent < acc {
                        acc = *percent;
                    }
                },
                _ => {},
            }
            i = i + 1;
        }
        assert(self@.subrange(0, i as int) =~= self@);
        acc
    }

    /// Whether the digest at `index` equals the first entry's digest, when
    /// both have completed (the host shows agreement or disagreement).
    pub fn digest_matches_first(&self, index: usize) -> (r: Option<bool>)
        ensures
            r == match_with_first(self@, index as int),
    {
        if self.entries.len() == 0 || index >= self.entries.len() {
            return None;
        }
        proof {
            assert(self@[0] == self.entries@[0]@);
            assert(self@[index as int] == self.entries@[index as int]@);
        }
        match (&self.entries[0].state, &self.entries[index].state) {
            (FileState::Completed { digest: a }, FileState::Completed { digest: b }) => Some(
                same_text(a, b),
            ),
            _ => None,
        }
    }

    /// Clears every entry, unless there is none: then reports that the
    /// registry was already empty (the host's cue to quit). Returns whether it
    /// was empty.
    pub fn clear(&mut self) -> (r: bool)
        ensures
            r == (old(self)@.len() == 0),
            final(self)@ == Seq::<(Seq<u8>, StateView)>::empty(),
    {
        let was_empty = self.entries.len() == 0;
        self.entries.clear();
        assert(self@ =~= Seq::<(Seq<u8>, StateView)>::empty());
        was_empty
    }
}

} // verus!
