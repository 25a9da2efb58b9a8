use vstd::prelude::*;

use vstd::pervasive::VecAdditionalExecFns;
use vstd::string::{StringExecFns, StringSliceAdditionalSpecFns};
use vstd::utf8::{decode_utf8, encode_utf8, is_char_boundary};

use crate::snapshot::DocumentSnapshot;
use crate::text::{owned, str_eq};

verus! {

/// Where a stored document stands in its life.
#[derive(Clone, Copy, Debug, PartialEq, Eq, Structural)]
pub enum DocState {
    /// Open in an editor.
    Open,
    /// Closed or saved, waiting to be collected; `swept` once a sweep has seen it so.
    Marked { swept: bool },
}

/// One stored document.
#[derive(Debug)]
pub struct Entry {
    pub snapshot: DocumentSnapshot,
    pub state: DocState,
}

/// Model of a stored document.
pub struct EntryModel {
    pub uri: Seq<char>,
    pub text: Seq<char>,
    pub version: u64,
    pub state: DocState,
    pub read_error: Option<Seq<char>>,
    pub last_touched: u64,
}

impl View for Entry {
    type V = EntryModel;

    open spec fn view(&self) -> EntryModel {
        EntryModel {
            uri: self.snapshot.uri@,
            text: self.snapshot.text@,
            version: self.snapshot.version,
            state: self.state,
            read_error: match self.snapshot.read_error {
                Some(e) => Some(e@),
                None => None,
            },
            last_touched: self.snapshot.last_touched,
        }
    }
}

/// A replacement of the bytes `[start, end)` of a text.
#[derive(Debug, PartialEq, Eq)]
pub struct TextEdit {
    pub start: usize,
    pub end: usize,
    pub replacement: String,
}

/// Why a batch of edits was refused.
#[derive(Debug, PartialEq, Eq, Clone, Copy, Structural)]
pub enum EditError {
    /// No document with that identity is stored.
    UnknownDocument,
    /// The edit at this index has a range that is reversed, past the end of the text,
    /// or not on character boundaries.
    InvalidRange(usize),
}

/// The process-wide registry of documents: identity to latest snapshot.
pub struct DocumentStore {
    entries: Vec<Entry>,
}

/// Index of the entry for `uri`, or -1.
pub open spec fn position(s: Seq<EntryModel>, uri: Seq<char>) -> int
    decreases s.len(),
{
    if s.len() == 0 {
        -1
    } else if s.last().uri == uri {
        s.len() - 1
    } else {
        position(s.drop_last(), uri)
    }
}

/// No two entries share an identity.
pub open spec fn unique(s: Seq<EntryModel>) -> bool {
    forall|i: int, j: int| 0 <= i < j < s.len() ==> s[i].uri != s[j].uri
}

pub open spec fn next_version(v: u64) -> u64 {
    if v < u64::MAX {
        (v + 1) as u64
    } else {
        v
    }
}

/// The entries after `uri` is opened with `text` (or with the read failure `error`).
pub open spec fn opened(
    s: Seq<EntryModel>,
    uri: Seq<char>,
    text: Seq<char>,
    error: Option<Seq<char>>,
    now: u64,
) -> Seq<EntryModel> {
    let p = position(s, uri);
    let rec = EntryModel {
        uri,
        text,
        version: if p >= 0 { next_version(s[p].version) } else { 1 },
        state: DocState::Open,
        read_error: error,
        last_touched: now,
    };
    if p >= 0 {
        s.update(p, rec)
    } else {
        s.push(rec)
    }
}

/// The entries after `uri` is marked for collection.
pub open spec fn marked(s: Seq<EntryModel>, uri: Seq<char>) -> Seq<EntryModel> {
    let p = position(s, uri);
    if p >= 0 && s[p].state == DocState::Open {
        s.update(p, EntryModel { state: DocState::Marked { swept: false }, ..s[p] })
    } else {
        s
    }
}

/// The entries after a sweep: those a previous sweep saw marked are gone, those marked
/// since are now seen.
pub open spec fn swept(s: Seq<EntryModel>) -> Seq<EntryModel>
    decreases s.len(),
{
    if s.len() == 0 {
        Seq::empty()
    } else {
        let rest = swept(s.drop_last());
        let e = s.last();
        match e.state {
            DocState::Marked { swept: true } => rest,
            DocState::Marked { swept: false } => rest.push(
                EntryModel { state: DocState::Marked { swept: true }, ..e },
            ),
            DocState::Open => rest.push(e),
        }
    }
}

/// The text after replacing the bytes `[start, end)` by `r`.
pub open spec fn edit_text(text: Seq<char>, start: int, end: int, r: Seq<char>) -> Seq<char> {
    let b = encode_utf8(text);
    decode_utf8(b.subrange(0, start)) + r + decode_utf8(b.subrange(end, b.len() as int))
}

/// The edit range is in order, within the text and on character boundaries.
pub open spec fn edit_ok(text: Seq<char>, start: int, end: int) -> bool {
    let b = encode_utf8(text);
    start <= end <= b.len() && is_char_boundary(b, start) && is_char_boundary(b, end)
}

/// Model of an edit.
pub open spec fn edit_model(e: TextEdit) -> (int, int, Seq<char>) {
    (e.start as int, e.end as int, e.replacement@)
}

/// The text after the edits, applied in order; or the index of the first edit that
/// does not apply.
pub open spec fn edited(text: Seq<char>, edits: Seq<(int, int, Seq<char>)>) -> Result<Seq<char>, int>
    decreases edits.len(),
{
    if edits.len() == 0 {
        Ok(text)
    } else {
        match edited(text, edits.drop_last()) {
            Ok(t) => {
                let (a, b, r) = edits.last();
                if edit_ok(t, a, b) {
                    Ok(edit_text(t, a, b, r))
                } else {
                    Err(edits.len() - 1)
                }
            },
            Err(i) => Err(i),
        }
    }
}

pub open spec fn edits_model(s: Seq<TextEdit>) -> Seq<(int, int, Seq<char>)> {
    Seq::new(s.len(), |i: int| edit_model(s[i]))
}

/// Replace the bytes `[start, end)` of `text` by `r`, when that range is valid.
pub fn apply_edit(text: &str, start: usize, end: usize, r: &str) -> (res: Option<String>)
    ensures
        match res {
            Some(s) => edit_ok(text@, start as int, end as int) && s@ == edit_text(
                text@,
                start as int,
                end as int,
                r@,
            ),
            None => !edit_ok(text@, start as int, end as int),
        },
{
    let len = text.as_bytes().len();
    if !(start <= end && end <= len && text.is_char_boundary(start) && text.is_char_boundary(end)) {
        return None;
    }
    let (a, _) = text.split_at(start);
    let (_, b) = text.split_at(end);
    proof {
        vstd::utf8::encode_utf8_decode_utf8(a@);
        vstd::utf8::encode_utf8_decode_utf8(b@);
    }
    let mut s = owned(a);
    s.append(r);
    s.append(b);
    Some(s)
}

pub proof fn lemma_position(s: Seq<EntryModel>, uri: Seq<char>)
    ensures
        -1 <= position(s, uri) < s.len(),
        position(s, uri) >= 0 ==> s[position(s, uri)].uri == uri,
        forall|j: int| position(s, uri) < j < s.len() ==> s[j].uri != uri,
    decreases s.len(),
{
    if s.len() > 0 {
        lemma_position(s.drop_last(), uri);
        if s.last().uri != uri {
            assert forall|j: int| position(s, uri) < j < s.len() implies s[j].uri != uri by {
                if j < s.len() - 1 {
                    assert(s.drop_last()[j] == s[j]);
                }
            }
        }
    }
}

pub proof fn lemma_position_update(s: Seq<EntryModel>, p: int, rec: EntryModel)
    requires
        position(s, rec.uri) == p,
        p >= 0,
    ensures
        position(s.update(p, rec), rec.uri) == p,
    decreases s.len(),
{
    lemma_position(s, rec.uri);
    if p < s.len() - 1 {
        assert(s.update(p, rec).drop_last() =~= s.drop_last().update(p, rec));
        lemma_position_update(s.drop_last(), p, rec);
    }
}

/// An entry that a sweep finds open, or marked but not yet seen, stays.
pub proof fn lemma_sweep_keeps(s: Seq<EntryModel>, uri: Seq<char>)
    requires
        position(s, uri) >= 0,
        s[position(s, uri)].state != (DocState::Marked { swept: true }),
    ensures
        position(swept(s), uri) >= 0,
        s[position(s, uri)].state == DocState::Open ==> swept(s)[position(swept(s), uri)].state == DocState::Open,
    decreases s.len(),
{
    lemma_position(s, uri);
    let rest = swept(s.drop_last());
    let e = s.last();
    if e.uri != uri {
        lemma_sweep_keeps(s.drop_last(), uri);
        lemma_position(rest, uri);
        assert(s.drop_last()[position(s, uri)] == s[position(s, uri)]);
        if !(e.state == (DocState::Marked { swept: true })) {
            let x = if e.state == DocState::Open { e } else { EntryModel { state: DocState::Marked { swept: true }, ..e } };
            assert(rest.push(x).drop_last() =~= rest);
            assert(rest.push(x)[position(rest, uri)] == rest[position(rest, uri)]);
        }
    }
}

/// `k` sweeps in a row.
pub open spec fn sweeps(s: Seq<EntryModel>, k: nat) -> Seq<EntryModel>
    decreases k,
{
    if k == 0 {
        s
    } else {
        swept(sweeps(s, (k - 1) as nat))
    }
}

/// An open document stays, and stays open, through any number of sweeps.
pub proof fn lemma_open_survives(s: Seq<EntryModel>, uri: Seq<char>, k: nat)
    requires
        position(s, uri) >= 0,
        s[position(s, uri)].state == DocState::Open,
    ensures
        position(sweeps(s, k), uri) >= 0,
        sweeps(s, k)[position(sweeps(s, k), uri)].state == DocState::Open,
    decreases k,
{
    if k > 0 {
        lemma_open_survives(s, uri, (k - 1) as nat);
        lemma_sweep_keeps(sweeps(s, (k - 1) as nat), uri);
    }
}

/// A sweep turns the not-yet-seen marks of a document into seen ones.
pub proof fn lemma_sweep_sees(s: Seq<EntryModel>, uri: Seq<char>)
    requires
        forall|i: int| 0 <= i < s.len() && s[i].uri == uri ==> s[i].state == (DocState::Marked { swept: false }),
    ensures
        forall|i: int| 0 <= i < swept(s).len() && swept(s)[i].uri == uri ==> swept(s)[i].state == (DocState::Marked { swept: true }),
    decreases s.len(),
{
    if s.len() > 0 {
        let init = s.drop_last();
        assert forall|i: int| 0 <= i < init.len() && init[i].uri == uri implies init[i].state == (DocState::Marked { swept: false }) by {
            assert(init[i] == s[i]);
        }
        lemma_sweep_sees(init, uri);
    }
}

/// A sweep removes every entry of a document whose marks it had already seen.
pub proof fn lemma_sweep_removes(s: Seq<EntryModel>, uri: Seq<char>)
    requires
        forall|i: int| 0 <= i < s.len() && s[i].uri == uri ==> s[i].state == (DocState::Marked { swept: true }),
    ensures
        position(swept(s), uri) == -1,
    decreases s.len(),
{
    if s.len() > 0 {
        let init = s.drop_last();
        assert forall|i: int| 0 <= i < init.len() && init[i].uri == uri implies init[i].state == (DocState::Marked { swept: true }) by {
            assert(init[i] == s[i]);
        }
        lemma_sweep_removes(init, uri);
        let rest = swept(init);
        let e = s.last();
        if !(e.state == (DocState::Marked { swept: true })) {
            let x = if e.state == DocState::Open { e } else { EntryModel { state: DocState::Marked { swept: true }, ..e } };
            assert(rest.push(x).drop_last() =~= rest);
        }
    }
}

/// Once an edit fails, the batch fails at that edit whatever follows it.
pub proof fn lemma_edited_err(text: Seq<char>, s: Seq<(int, int, Seq<char>)>, k: int, n: int)
    requires
        0 <= k < n <= s.len(),
        edited(text, s.subrange(0, k + 1)) == Err::<Seq<char>, int>(k),
    ensures
        edited(text, s.subrange(0, n)) == Err::<Seq<char>, int>(k),
    decreases n,
{
    if n > k + 1 {
        lemma_edited_err(text, s, k, n - 1);
        assert(s.subrange(0, n).drop_last() =~= s.subrange(0, n - 1));
    }
}

/// A document that is marked and then opened again before the next sweep is not
/// collected by that sweep.
pub proof fn gc_safety(
    s: Seq<EntryModel>,
    uri: Seq<char>,
    text: Seq<char>,
    error: Option<Seq<char>>,
    now: u64,
)
    ensures
        position(swept(opened(marked(s, uri), uri, text, error, now)), uri) >= 0,
{
    let m = marked(s, uri);
    let o = opened(m, uri, text, error, now);
    lemma_position(m, uri);
    let p = position(m, uri);
    if p >= 0 {
        lemma_position_update(m, p, o[p]);
        assert(o == m.update(p, o[p]));
    } else {
        assert(o.drop_last() =~= m);
    }
    lemma_position(o, uri);
    lemma_sweep_keeps(o, uri);
}

/// A document that is marked and then opened again before the next sweep stays, open,
/// through any number of sweeps until it is marked again.
pub proof fn reopened_survives_sweeps(
    s: Seq<EntryModel>,
    uri: Seq<char>,
    text: Seq<char>,
    error: Option<Seq<char>>,
    now: u64,
    k: nat,
)
    ensures
        position(sweeps(opened(marked(s, uri), uri, text, error, now), k), uri) >= 0,
{
    let m = marked(s, uri);
    let o = opened(m, uri, text, error, now);
    lemma_position(m, uri);
    let p = position(m, uri);
    if p >= 0 {
        lemma_position_update(m, p, o[p]);
        assert(o == m.update(p, o[p]));
    } else {
        assert(o.drop_last() =~= m);
    }
    lemma_open_survives(o, uri, k);
}

/// An open document that is marked and not opened again is gone after the second sweep,
/// and still there after the first.
pub proof fn two_sweeps_collect(s: Seq<EntryModel>, uri: Seq<char>)
    requires
        unique(s),
        position(s, uri) >= 0,
        s[position(s, uri)].state == DocState::Open,
    ensures
        position(swept(marked(s, uri)), uri) >= 0,
        position(swept(swept(marked(s, uri))), uri) == -1,
{
    lemma_position(s, uri);
    let p = position(s, uri);
    let m = marked(s, uri);
    assert forall|i: int| 0 <= i < m.len() && m[i].uri == uri implies m[i].state == (DocState::Marked { swept: false }) by {
        if i != p {
            assert(s[i].uri != s[p].uri);
        }
    }
    lemma_position_update(s, p, m[p]);
    lemma_sweep_keeps(m, uri);
    lemma_sweep_sees(m, uri);
    lemma_sweep_removes(swept(m), uri);
}

impl DocumentStore {
    /// The stored documents, in the order they were first opened.
    pub closed spec fn view(&self) -> Seq<EntryModel> {
        Seq::new(self.entries@.len(), |i: int| self.entries@[i]@)
    }

    /// Identities are unique and every snapshot is consistent.
    pub closed spec fn wf(&self) -> bool {
        &&& unique(self.view())
        &&& forall|i: int| 0 <= i < self.entries@.len() ==> (#[trigger] self.entries@[i]).snapshot.consistent()
    }

    /// The snapshot stored for the entry at `i`.
    pub closed spec fn snapshot_at(&self, i: int) -> DocumentSnapshot {
        self.entries@[i].snapshot
    }

    /// A reader never sees a tree from one parse paired with diagnostics or an outline from
    /// another: every snapshot the store holds, before or after any update, has its tree,
    /// diagnostics and outline from one analysis of its own text.
    pub proof fn snapshot_atomicity(&self, i: int)
        requires
            self.wf(),
            0 <= i < self.view().len(),
        ensures
            self.snapshot_at(i).consistent(),
            self.snapshot_at(i).uri@ == self.view()[i].uri,
            self.snapshot_at(i).text@ == self.view()[i].text,
            self.snapshot_at(i).version == self.view()[i].version,
    {
    }

    /// No two stored documents share an identity.
    pub proof fn lemma_unique(&self)
        requires
            self.wf(),
        ensures
            unique(self.view()),
    {
    }

    /// An empty store.
    pub fn new() -> (r: DocumentStore)
        ensures
            r.wf(),
            r.view() == Seq::<EntryModel>::empty(),
    {
        let r = DocumentStore { entries: Vec::new() };
        assert(r.view() =~= Seq::<EntryModel>::empty());
        r
    }

    fn find(&self, uri: &str) -> (r: Option<usize>)
        ensures
            match r {
                Some(i) => position(self.view(), uri@) == i as int && i < self.entries@.len(),
                None => position(self.view(), uri@) == -1,
            },
    {
        let mut i = self.entries.len();
        assert(self.view().subrange(0, i as int) =~= self.view());
        while i > 0
            invariant
                0 <= i <= self.entries@.len(),
                position(self.view(), uri@) == position(self.view().subrange(0, i as int), uri@),
            decreases i,
        {
            assert(self.view().subrange(0, i - 1) =~= self.view().subrange(0, i as int).drop_last());
            if str_eq(self.entries[i - 1].snapshot.uri.as_str(), uri) {
                return Some(i - 1);
            }
            i -= 1;
        }
        None
    }

    /// Parse, lower and validate a document's text and install the result as its snapshot;
    /// or, when the text could not be read (`Err` holds why), install an empty snapshot
    /// whose one diagnostic names the failure. The document is open afterwards, a mark on
    /// it is cancelled, and its version goes up by one (it stays put at `u64::MAX`).
    pub fn open(&mut self, uri: &str, text: Result<String, String>, now: u64)
        requires
            old(self).wf(),
        ensures
            final(self).wf(),
            final(self).view() == opened(
                old(self).view(),
                uri@,
                match text {
                    Ok(t) => t@,
                    Err(_) => Seq::<char>::empty(),
                },
                match text {
                    Ok(_) => None,
                    Err(e) => Some(e@),
                },
                now,
            ),
    {
        let found = self.find(uri);
        proof {
            lemma_position(self.view(), uri@);
        }
        let version = match found {
            Some(i) => {
                let v = self.entries[i].snapshot.version;
                if v < u64::MAX {
                    v + 1
                } else {
                    v
                }
            },
            None => 1,
        };
        let snapshot = match text {
            Ok(t) => DocumentSnapshot::from_text(owned(uri), t, version, now),
            Err(e) => DocumentSnapshot::unread(owned(uri), e, version, now),
        };
        let entry = Entry { snapshot, state: DocState::Open };
        let ghost before = self.view();
        match found {
            Some(i) => {
                self.entries.set(i, entry);
                assert(self.view() =~= before.update(i as int, entry@));
            },
            None => {
                self.entries.push(entry);
                assert(self.view() =~= before.push(entry@));
            },
        }
    }

    /// Mark an open document for collection; a later `open` cancels the mark.
    pub fn mark(&mut self, uri: &str)
        requires
            old(self).wf(),
        ensures
            final(self).wf(),
            final(self).view() == marked(old(self).view(), uri@),
    {
        let found = self.find(uri);
        proof {
            lemma_position(self.view(), uri@);
        }
        match found {
            Some(i) => {
                if self.entries[i].state == DocState::Open {
                    let ghost before = self.view();
                    let mut entry = self.entries.remove(i);
                    entry.state = DocState::Marked { swept: false };
                    self.entries.insert(i, entry);
                    assert(self.view() =~= before.update(
                        i as int,
                        EntryModel { state: DocState::Marked { swept: false }, ..before[i as int] },
                    ));
                }
            },
            None => {},
        }
    }

    /// Collect every document that the previous sweep already found marked, and note the
    /// ones marked since.
    pub fn sweep(&mut self)
        requires
            old(self).wf(),
        ensures
            final(self).wf(),
            final(self).view() == swept(old(self).view()),
    {
        let mut rest: Vec<Entry> = Vec::new();
        core::mem::swap(&mut self.entries, &mut rest);
        let ghost orig = Seq::new(rest@.len(), |i: int| rest@[i]@);
        let ghost orig_entries = rest@;
        let total = rest.len();
        let ghost n = rest@.len();
        assert(orig.subrange(0, 0) =~= Seq::<EntryModel>::empty());
        assert(self.view() =~= Seq::<EntryModel>::empty());
        let mut i: usize = 0;
        while rest.len() > 0
            invariant
                0 <= i <= n,
                n == total,
                rest@ == orig_entries.subrange(i as int, n as int),
                orig.len() == n,
                orig_entries.len() == n,
                forall|k: int| 0 <= k < n ==> #[trigger] orig[k] == orig_entries[k]@,
                unique(orig),
                forall|k: int| 0 <= k < n ==> (#[trigger] orig_entries[k]).snapshot.consistent(),
                self.view() == swept(orig.subrange(0, i as int)),
                unique(self.view()),
                forall|k: int| 0 <= k < self.entries@.len() ==> (#[trigger] self.entries@[k]).snapshot.consistent(),
                forall|k: int| 0 <= k < self.view().len() ==> exists|j: int| 0 <= j < i && #[trigger] self.view()[k].uri == orig[j].uri,
            decreases rest@.len(),
        {
            let e = rest.remove(0);
            let ghost before = self.view();
            assert(e == orig_entries[i as int]);
            assert(orig.subrange(0, i + 1).drop_last() =~= orig.subrange(0, i as int));
            assert(forall|k: int| 0 <= k < before.len() ==> before[k].uri != orig[i as int].uri);
            match e.state {
                DocState::Marked { swept: true } => {},
                DocState::Marked { swept: false } => {
                    self.entries.push(Entry { snapshot: e.snapshot, state: DocState::Marked { swept: true } });
                    assert(self.view() =~= before.push(EntryModel { state: DocState::Marked { swept: true }, ..orig[i as int] }));
                },
                DocState::Open => {
                    self.entries.push(e);
                    assert(self.view() =~= before.push(orig[i as int]));
                },
            }
            i += 1;
            assert(rest@ =~= orig_entries.subrange(i as int, n as int));
        }
        assert(orig.subrange(0, n as int) =~= orig);
    }

    /// The latest snapshot of a document, if it is stored. A reader keeps it whole for as
    /// long as it holds it: the store replaces snapshots, it never changes one.
    pub fn snapshot(&self, uri: &str) -> (r: Option<&DocumentSnapshot>)
        requires
            self.wf(),
        ensures
            match r {
                Some(s) => {
                    &&& position(self.view(), uri@) >= 0
                    &&& *s == self.snapshot_at(position(self.view(), uri@))
                    &&& s.consistent()
                    &&& s.text@ == self.view()[position(self.view(), uri@)].text
                    &&& s.version == self.view()[position(self.view(), uri@)].version
                    &&& s.uri@ == uri@
                    &&& match s.read_error {
                        Some(e) => self.view()[position(self.view(), uri@)].read_error == Some(e@),
                        None => self.view()[position(self.view(), uri@)].read_error is None,
                    }
                },
                None => position(self.view(), uri@) == -1,
            },
    {
        proof {
            lemma_position(self.view(), uri@);
        }
        match self.find(uri) {
            Some(i) => Some(&self.entries[i].snapshot),
            None => None,
        }
    }

    /// Where a document stands, if it is stored.
    pub fn state(&self, uri: &str) -> (r: Option<DocState>)
        ensures
            match r {
                Some(st) => position(self.view(), uri@) >= 0 && st == self.view()[position(self.view(), uri@)].state,
                None => position(self.view(), uri@) == -1,
            },
    {
        proof {
            lemma_position(self.view(), uri@);
        }
        match self.find(uri) {
            Some(i) => Some(self.entries[i].state),
            None => None,
        }
    }
    /// Apply edits, in the order given, to a stored document's text, then reparse the whole
    /// text and install the new snapshot with the next version. When an edit does not
    /// apply to the text the edits before it produced, nothing changes.
    pub fn apply_edits(&mut self, uri: &str, edits: &Vec<TextEdit>, now: u64) -> (r: Result<(), EditError>)
        requires
            old(self).wf(),
        ensures
            final(self).wf(),
            position(old(self).view(), uri@) == -1 ==> r == Err::<(), EditError>(EditError::UnknownDocument)
                && final(self).view() == old(self).view(),
            position(old(self).view(), uri@) >= 0 ==> {
                let p = position(old(self).view(), uri@);
                let e = old(self).view()[p];
                match edited(e.text, edits_model(edits@)) {
                    Ok(t) => r == Ok::<(), EditError>(()) && final(self).view() == old(self).view().update(
                        p,
                        EntryModel { text: t, version: next_version(e.version), read_error: None, last_touched: now, ..e },
                    ),
                    Err(i) => r == Err::<(), EditError>(EditError::InvalidRange(i as usize))
                        && final(self).view() == old(self).view(),
                }
            },
    {
        proof {
            lemma_position(self.view(), uri@);
        }
        let i = match self.find(uri) {
            Some(i) => i,
            None => return Err(EditError::UnknownDocument),
        };
        let ghost orig = self.view()[i as int].text;
        let ghost es = edits_model(edits@);
        let mut text = self.entries[i].snapshot.text.clone();
        let mut k: usize = 0;
        assert(es.subrange(0, 0) =~= Seq::<(int, int, Seq<char>)>::empty());
        while k < edits.len()
            invariant
                0 <= k <= edits@.len(),
                es == edits_model(edits@),
                self.wf(),
                self.view() == old(self).view(),
                position(self.view(), uri@) == i as int,
                i < self.entries@.len(),
                orig == self.view()[i as int].text,
                edited(orig, es.subrange(0, k as int)) == Ok::<Seq<char>, int>(text@),
            decreases edits@.len() - k,
        {
            let e = &edits[k];
            assert(es.subrange(0, k + 1).drop_last() =~= es.subrange(0, k as int));
            assert(es.subrange(0, k + 1).last() == edit_model(edits@[k as int]));
            match apply_edit(text.as_str(), e.start, e.end, e.replacement.as_str()) {
                Some(s) => {
                    text = s;
                },
                None => {
                    proof {
                        lemma_edited_err(orig, es, k as int, es.len() as int);
                        assert(es.subrange(0, es.len() as int) =~= es);
                    }
                    return Err(EditError::InvalidRange(k));
                },
            }
            k += 1;
        }
        assert(es.subrange(0, edits@.len() as int) =~= es);
        let state = self.entries[i].state;
        let v = self.entries[i].snapshot.version;
        let version = if v < u64::MAX {
            v + 1
        } else {
            v
        };
        let snapshot = DocumentSnapshot::from_text(owned(uri), text, version, now);
        let ghost before = self.view();
        let entry = Entry { snapshot, state };
        self.entries.set(i, entry);
        assert(self.view() =~= before.update(i as int, entry@));
        Ok(())
    }
}

} // verus!
