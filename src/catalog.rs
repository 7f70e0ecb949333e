use vstd::prelude::*;

use crate::error::DatastoreError;

verus! {

/// What the catalog records of one backup, as mathematical values.
pub ghost struct BackupView {
    pub name: Seq<char>,
    pub size: nat,
    pub created_at: nat,
    pub compressed: bool,
    pub encrypted: bool,
}

/// One backup: a named set of chunks with the metadata fixed when it was created.
#[derive(Debug, Clone)]
pub struct Backup {
    /// The backup's name, also the name of its storage location.
    pub directory_name: String,
    /// Total length of the transformed chunks written under this name.
    pub size: u64,
    /// Creation time, in milliseconds since the epoch.
    pub created_at: u64,
    /// Whether the chunks were compressed.
    pub compressed: bool,
    /// Whether the chunks were encrypted.
    pub encrypted: bool,
}

impl View for Backup {
    type V = BackupView;

    open spec fn view(&self) -> BackupView {
        BackupView {
            name: self.directory_name@,
            size: self.size as nat,
            created_at: self.created_at as nat,
            compressed: self.compressed,
            encrypted: self.encrypted,
        }
    }
}

impl Backup {
    /// A copy of the record.
    pub fn copied(&self) -> (r: Backup)
        ensures
            r@ == self@,
    {
        Backup {
            directory_name: self.directory_name.clone(),
            size: self.size,
            created_at: self.created_at,
            compressed: self.compressed,
            encrypted: self.encrypted,
        }
    }
}

/// The catalog: every backup that the datastore holds.
#[derive(Debug, Clone)]
pub struct IndexFile {
    pub backups: Vec<Backup>,
}

impl View for IndexFile {
    type V = Seq<BackupView>;

    open spec fn view(&self) -> Seq<BackupView> {
        self.backups@.map_values(|b: Backup| b@)
    }
}

/// How a backup is picked for reading.
#[derive(Debug, Clone)]
pub enum ReadOptions {
    /// The backup created last.
    Latest,
    /// The backup with this name.
    Backup { name: String },
}

/// Some record of `s` is named `name`.
pub open spec fn has_name(s: Seq<BackupView>, name: Seq<char>) -> bool {
    exists|i: int| 0 <= i < s.len() && #[trigger] s[i].name == name
}

/// No two records of `s` share a name.
pub open spec fn unique_names(s: Seq<BackupView>) -> bool {
    forall|i: int, j: int|
        0 <= i < s.len() && 0 <= j < s.len() && #[trigger] s[i].name == #[trigger] s[j].name
            ==> i == j
}

/// The position of the record named `name` (meaningful where there is one).
pub open spec fn index_of(s: Seq<BackupView>, name: Seq<char>) -> int {
    choose|i: int| 0 <= i < s.len() && #[trigger] s[i].name == name
}

/// No record of `s` was created after the one at `i`.
pub open spec fn is_latest(s: Seq<BackupView>, i: int) -> bool {
    0 <= i < s.len() && forall|j: int| 0 <= j < s.len() ==> #[trigger] s[j].created_at <= s[i].created_at
}

/// The catalog after a chunk of `len` bytes was written under `name` at time `now`
/// by an engine configured with the flags `compressed` and `encrypted`: an existing
/// record grows by `len` and keeps its creation time and flags; otherwise a new
/// record is appended.
pub open spec fn recorded(
    s: Seq<BackupView>,
    name: Seq<char>,
    len: nat,
    now: nat,
    compressed: bool,
    encrypted: bool,
) -> Seq<BackupView> {
    if has_name(s, name) {
        let i = index_of(s, name);
        s.update(i, BackupView { size: s[i].size + len, ..s[i] })
    } else {
        s.push(BackupView { name, size: len, created_at: now, compressed, encrypted })
    }
}

/// The catalog without the record named `name`.
pub open spec fn removed_named(s: Seq<BackupView>, name: Seq<char>) -> Seq<BackupView> {
    if has_name(s, name) {
        s.remove(index_of(s, name))
    } else {
        s
    }
}

/// A write of `len` bytes under `name` keeps every size within `u64`.
pub open spec fn size_fits(s: Seq<BackupView>, name: Seq<char>, len: nat) -> bool {
    forall|i: int| 0 <= i < s.len() && #[trigger] s[i].name == name ==> s[i].size + len <= u64::MAX
}

/// What initialization settles, given what loading the persisted catalog
/// returned: an existing catalog is kept and need not be written; an absent one
/// (`NotFound`) is replaced by an empty catalog that has to be persisted; any
/// other failure (a corrupt catalog, a storage error) is passed on.
pub open spec fn initialized(loaded: Result<Seq<BackupView>, DatastoreError>) -> Result<(Seq<BackupView>, bool), DatastoreError> {
    match loaded {
        Ok(s) => Ok((s, false)),
        Err(DatastoreError::NotFound) => Ok((Seq::empty(), true)),
        Err(e) => Err(e),
    }
}

/// One write as the catalog sees it: the transformed length, the time, and the
/// engine's compression and encryption flags at that moment.
pub ghost struct WriteEvent {
    pub len: nat,
    pub now: nat,
    pub compressed: bool,
    pub encrypted: bool,
}

/// The catalog after the writes `ws`, in order, under `name`.
pub open spec fn recorded_all(s: Seq<BackupView>, name: Seq<char>, ws: Seq<WriteEvent>) -> Seq<BackupView>
    decreases ws.len(),
{
    if ws.len() == 0 {
        s
    } else {
        let w = ws.last();
        recorded(recorded_all(s, name, ws.drop_last()), name, w.len, w.now, w.compressed, w.encrypted)
    }
}

/// The sum of the lengths of the writes `ws`.
pub open spec fn total_len(ws: Seq<WriteEvent>) -> nat
    decreases ws.len(),
{
    if ws.len() == 0 {
        0
    } else {
        total_len(ws.drop_last()) + ws.last().len
    }
}

/// Initializing a datastore whose catalog was just initialized finds that
/// catalog, keeps it unchanged, and writes nothing; where the first
/// initialization failed, nothing was written either.
pub proof fn lemma_initialize_idempotent(loaded: Result<Seq<BackupView>, DatastoreError>)
    ensures
        initialized(loaded) is Ok ==> initialized(Ok(initialized(loaded)->Ok_0.0)) == Ok::<
            (Seq<BackupView>, bool),
            DatastoreError,
        >((initialized(loaded)->Ok_0.0, false)),
        initialized(loaded) is Err ==> loaded is Err && loaded->Err_0 != DatastoreError::NotFound,
{
}

/// Recording a write keeps names unique.
pub proof fn lemma_recorded_unique(
    s: Seq<BackupView>,
    name: Seq<char>,
    len: nat,
    now: nat,
    compressed: bool,
    encrypted: bool,
)
    requires
        unique_names(s),
    ensures
        unique_names(recorded(s, name, len, now, compressed, encrypted)),
        has_name(recorded(s, name, len, now, compressed, encrypted), name),
        recorded(s, name, len, now, compressed, encrypted).len() == if has_name(s, name) {
            s.len()
        } else {
            s.len() + 1
        },
{
    let r = recorded(s, name, len, now, compressed, encrypted);
    if has_name(s, name) {
        let i = index_of(s, name);
        assert(r[i].name == name);
        assert forall|a: int, b: int|
            0 <= a < r.len() && 0 <= b < r.len() && #[trigger] r[a].name == #[trigger] r[b].name implies a == b by {
            assert(s[a].name == r[a].name);
            assert(s[b].name == r[b].name);
        }
    } else {
        assert(r[s.len() as int].name == name);
        assert forall|a: int, b: int|
            0 <= a < r.len() && 0 <= b < r.len() && #[trigger] r[a].name == #[trigger] r[b].name implies a == b by {
            if a < s.len() && b < s.len() {
                assert(s[a].name == s[b].name);
            } else if a < s.len() {
                assert(s[a].name == name);
            } else if b < s.len() {
                assert(s[b].name == name);
            }
        }
    }
}

/// Once a backup exists, a write of any length, at any time and under any
/// configuration leaves its name, creation time and transform flags as they were
/// and adds the length to its size; no other record changes.
pub proof fn lemma_flags_fixed_at_creation(
    s: Seq<BackupView>,
    name: Seq<char>,
    len: nat,
    now: nat,
    compressed: bool,
    encrypted: bool,
)
    requires
        unique_names(s),
        has_name(s, name),
    ensures
        ({
            let r = recorded(s, name, len, now, compressed, encrypted);
            let i = index_of(s, name);
            &&& r.len() == s.len()
            &&& r[i].name == s[i].name
            &&& r[i].created_at == s[i].created_at
            &&& r[i].compressed == s[i].compressed
            &&& r[i].encrypted == s[i].encrypted
            &&& r[i].size == s[i].size + len
            &&& forall|j: int| 0 <= j < s.len() && j != i ==> r[j] == s[j]
        }),
{
}

/// After one or more writes under a name that the catalog did not hold, exactly
/// one record has that name: it comes after the records that were there, which are
/// unchanged; its size is the sum of the written lengths, and its creation time and
/// flags are those of the first write.
pub proof fn lemma_catalog_accounting(s: Seq<BackupView>, name: Seq<char>, ws: Seq<WriteEvent>)
    requires
        unique_names(s),
        !has_name(s, name),
        ws.len() > 0,
    ensures
        ({
            let r = recorded_all(s, name, ws);
            &&& unique_names(r)
            &&& r.len() == s.len() + 1
            &&& r.subrange(0, s.len() as int) == s
            &&& index_of(r, name) == s.len()
            &&& r[s.len() as int] == BackupView {
                name,
                size: total_len(ws),
                created_at: ws[0].now,
                compressed: ws[0].compressed,
                encrypted: ws[0].encrypted,
            }
        }),
    decreases ws.len(),
{
    let r = recorded_all(s, name, ws);
    let w = ws.last();
    let n = s.len() as int;
    if ws.len() == 1 {
        assert(ws.drop_last().len() == 0);
        assert(recorded_all(s, name, ws.drop_last()) == s);
        assert(total_len(ws.drop_last()) == 0);
        lemma_recorded_unique(s, name, w.len, w.now, w.compressed, w.encrypted);
        assert(r[n].name == name);
        assert(r.subrange(0, n) =~= s);
    } else {
        let p = recorded_all(s, name, ws.drop_last());
        lemma_catalog_accounting(s, name, ws.drop_last());
        assert(ws.drop_last()[0] == ws[0]);
        assert(p[n].name == name);
        assert(has_name(p, name));
        lemma_recorded_unique(p, name, w.len, w.now, w.compressed, w.encrypted);
        assert(r.subrange(0, n) =~= p.subrange(0, n));
        assert(r[n].name == name);
    }
    assert(has_name(r, name));
    let j = index_of(r, name);
    assert(r[j].name == r[n].name);
}

impl IndexFile {
    /// Well-formed: names are unique.
    pub open spec fn wf(&self) -> bool {
        unique_names(self@)
    }

    /// An empty catalog.
    pub fn empty() -> (r: IndexFile)
        ensures
            r@ == Seq::<BackupView>::empty(),
            r.wf(),
    {
        let r = IndexFile { backups: Vec::new() };
        assert(r@ =~= Seq::<BackupView>::empty());
        r
    }

    /// The position of the record named `name`, if there is one.
    pub fn position_of(&self, name: &String) -> (r: Option<usize>)
        ensures
            match r {
                Some(i) => i < self@.len() && self@[i as int].name == name@,
                None => !has_name(self@, name@),
            },
    {
        let n = self.backups.len();
        let mut i: usize = 0;
        while i < n
            invariant
                n == self.backups.len(),
                i <= n,
                forall|j: int| 0 <= j < i ==> self@[j].name != name@,
            decreases n - i,
        {
            if self.backups[i].directory_name == *name {
                return Some(i);
            }
            i = i + 1;
        }
        proof {
            assert forall|j: int| 0 <= j < self@.len() implies #[trigger] self@[j].name != name@ by {}
        }
        None
    }

    /// Whether no two records share a name, as a loaded catalog must.
    pub fn has_unique_names(&self) -> (r: bool)
        ensures
            r == self.wf(),
    {
        let n = self.backups.len();
        let mut i: usize = 0;
        while i < n
            invariant
                n == self@.len(),
                i <= n,
                forall|a: int, b: int|
                    0 <= a < i && 0 <= b < n && #[trigger] self@[a].name == #[trigger] self@[b].name ==> a == b,
            decreases n - i,
        {
            let mut j: usize = 0;
            while j < n
                invariant
                    n == self@.len(),
                    i < n,
                    j <= n,
                    forall|b: int| 0 <= b < j && self@[i as int].name == #[trigger] self@[b].name ==> i == b,
                decreases n - j,
            {
                if j != i && self.backups[i].directory_name == self.backups[j].directory_name {
                    assert(self@[i as int].name == self@[j as int].name);
                    return false;
                }
                j = j + 1;
            }
            proof {
                assert forall|a: int, b: int|
                    0 <= a < i + 1 && 0 <= b < n && #[trigger] self@[a].name == #[trigger] self@[b].name implies a
                    == b by {
                    if a == i && b != i {
                        if b < a {
                            assert(self@[b].name == self@[a].name);
                        }
                    }
                }
            }
            i = i + 1;
        }
        true
    }

    /// Picks the backup that `options` selects: the one created last (the first
    /// of those, on a tie), or the one with the given name. Fails with `NotFound`
    /// exactly where there is none.
    pub fn find_backup(&self, options: &ReadOptions) -> (r: Result<&Backup, DatastoreError>)
        ensures
            match options {
                ReadOptions::Latest => match r {
                    Ok(b) => exists|i: int|
                        #[trigger] is_latest(self@, i) && self.backups@[i] == *b && forall|j: int|
                            0 <= j < i ==> self@[j].created_at < self@[i].created_at,
                    Err(e) => e == DatastoreError::NotFound && self@.len() == 0,
                },
                ReadOptions::Backup { name } => match r {
                    Ok(b) => b@.name == name@ && exists|i: int|
                        0 <= i < self@.len() && self.backups@[i] == *b,
                    Err(e) => e == DatastoreError::NotFound && !has_name(self@, name@),
                },
            },
    {
        match options {
            ReadOptions::Latest => {
                let n = self.backups.len();
                if n == 0 {
                    return Err(DatastoreError::NotFound);
                }
                let mut best: usize = 0;
                let mut i: usize = 1;
                while i < n
                    invariant
                        n == self.backups.len(),
                        1 <= i <= n,
                        best < i,
                        forall|j: int| 0 <= j < i ==> #[trigger] self@[j].created_at <= self@[best as int].created_at,
                        forall|j: int| 0 <= j < best ==> #[trigger] self@[j].created_at < self@[best as int].created_at,
                    decreases n - i,
                {
                    if self.backups[i].created_at > self.backups[best].created_at {
                        best = i;
                    }
                    i = i + 1;
                }
                assert(is_latest(self@, best as int));
                Ok(&self.backups[best])
            },
            ReadOptions::Backup { name } => {
                match self.position_of(name) {
                    Some(i) => Ok(&self.backups[i]),
                    None => Err(DatastoreError::NotFound),
                }
            },
        }
    }

    /// Accounts for a chunk of `len` bytes written under `name` at time `now`.
    pub fn record_write(&mut self, name: &String, len: u64, now: u64, compressed: bool, encrypted: bool)
        requires
            old(self).wf(),
            size_fits(old(self)@, name@, len as nat),
        ensures
            final(self)@ == recorded(old(self)@, name@, len as nat, now as nat, compressed, encrypted),
            final(self).wf(),
    {
        match self.position_of(name) {
            Some(i) => {
                let ghost s = self@;
                assert(s[i as int].name == name@);
                assert(index_of(s, name@) == i as int);
                let b = Backup {
                    directory_name: self.backups[i].directory_name.clone(),
                    size: self.backups[i].size + len,
                    created_at: self.backups[i].created_at,
                    compressed: self.backups[i].compressed,
                    encrypted: self.backups[i].encrypted,
                };
                self.backups.set(i, b);
                assert(self@ =~= recorded(s, name@, len as nat, now as nat, compressed, encrypted));
            },
            None => {
                let ghost s = self@;
                let b = Backup {
                    directory_name: name.clone(),
                    size: len,
                    created_at: now,
                    compressed,
                    encrypted,
                };
                self.backups.push(b);
                assert(self@ =~= recorded(s, name@, len as nat, now as nat, compressed, encrypted));
            },
        }
    }

    /// Removes the record named `name`, if there is one; every other record stays,
    /// in its order.
    pub fn remove_backup(&mut self, name: &String)
        requires
            old(self).wf(),
        ensures
            final(self)@ == removed_named(old(self)@, name@),
            final(self).wf(),
    {
        let ghost s = self@;
        match self.position_of(name) {
            Some(i) => {
                assert(index_of(s, name@) == i as int);
                self.backups.remove(i);
                assert(self@ =~= s.remove(i as int));
                assert forall|a: int, b: int|
                    0 <= a < self@.len() && 0 <= b < self@.len() && #[trigger] self@[a].name
                        == #[trigger] self@[b].name implies a == b by {
                    let a0 = if a < i { a } else { a + 1 };
                    let b0 = if b < i { b } else { b + 1 };
                    assert(s[a0].name == s[b0].name);
                }
            },
            None => {},
        }
    }
}

} // verus!
