use vstd::prelude::*;

use crate::catalog::{has_name, initialized, recorded, size_fits, Backup, BackupView, IndexFile};
use crate::chunks::chunk_file_name_of;
use crate::digits::{decimal, digit_char};
use crate::error::DatastoreError;

verus! {

/// The default backup name for an engine created at time `t`.
pub open spec fn default_dump_name(t: nat) -> Seq<char> {
    seq!['d', 'u', 'm', 'p', '-'] + decimal(t)
}

/// Relies on std's `SystemTime::elapsed` on the epoch: the current time, in
/// milliseconds since the epoch (0 for a clock set before it). Nothing is
/// promised of the value.
#[verifier::external_body]
fn epoch_millis() -> (r: u64) {
    std::time::UNIX_EPOCH.elapsed().map(|d| d.as_millis() as u64).unwrap_or(0)
}

/// The one-character string of the decimal digit `d`.
fn digit_str(d: u64) -> (r: &'static str)
    requires
        d < 10,
    ensures
        r@ == seq![digit_char(d as nat)],
{
    proof {
        reveal_strlit("0");
        reveal_strlit("1");
        reveal_strlit("2");
        reveal_strlit("3");
        reveal_strlit("4");
        reveal_strlit("5");
        reveal_strlit("6");
        reveal_strlit("7");
        reveal_strlit("8");
        reveal_strlit("9");
    }
    let r = if d == 0 {
        "0"
    } else if d == 1 {
        "1"
    } else if d == 2 {
        "2"
    } else if d == 3 {
        "3"
    } else if d == 4 {
        "4"
    } else if d == 5 {
        "5"
    } else if d == 6 {
        "6"
    } else if d == 7 {
        "7"
    } else if d == 8 {
        "8"
    } else {
        "9"
    };
    assert(r@ =~= seq![digit_char(d as nat)]);
    r
}

/// `n` in decimal, without leading zeros.
fn decimal_string(n: u64) -> (r: String)
    ensures
        r@ == decimal(n as nat),
    decreases n,
{
    if n < 10 {
        String::from_str(digit_str(n))
    } else {
        let mut s = decimal_string(n / 10);
        s.append(digit_str(n % 10));
        s
    }
}

/// The transforms to apply to a chunk: compression, and encryption with a key.
/// On the write path compression comes first; on the read path decryption does.
#[derive(Debug, Clone)]
pub struct Transforms {
    pub compress: bool,
    pub encryption_key: Option<String>,
}

/// A datastore that keeps its catalog and chunks under a directory, with the
/// configuration that the next writes and reads use.
#[derive(Debug)]
pub struct LocalDisk {
    dir: String,
    dump_name: String,
    enable_compression: bool,
    encryption_key: Option<String>,
}

/// The view of an optional key.
pub open spec fn key_view(k: Option<String>) -> Option<Seq<char>> {
    match k {
        Some(s) => Some(s@),
        None => None,
    }
}

/// What reading back a chunk of `b` under an engine holding `key` takes: the
/// key where `b` is encrypted, and decompression where it is compressed; or
/// `Misconfiguration` where `b` is encrypted and there is no key.
pub open spec fn read_plan(b: BackupView, key: Option<Seq<char>>) -> Result<(bool, Option<Seq<char>>), DatastoreError> {
    if b.encrypted {
        match key {
            Some(k) => Ok((b.compressed, Some(k))),
            None => Err(DatastoreError::Misconfiguration),
        }
    } else {
        Ok((b.compressed, None))
    }
}

/// A backup created by a write under compression setting `compressed` and key
/// `key` is read back, under the same key, by reversing exactly those transforms:
/// decryption with that key where there was one, then decompression where the
/// write compressed.
pub proof fn lemma_read_reverses_write(
    s: Seq<BackupView>,
    name: Seq<char>,
    len: nat,
    now: nat,
    compressed: bool,
    key: Option<Seq<char>>,
)
    requires
        !has_name(s, name),
    ensures
        read_plan(recorded(s, name, len, now, compressed, key is Some)[s.len() as int], key) == Ok::<
            (bool, Option<Seq<char>>),
            DatastoreError,
        >((compressed, key)),
{
}

impl LocalDisk {
    pub closed spec fn spec_dir(&self) -> Seq<char> {
        self.dir@
    }

    pub closed spec fn spec_dump_name(&self) -> Seq<char> {
        self.dump_name@
    }

    pub closed spec fn spec_compression(&self) -> bool {
        self.enable_compression
    }

    pub closed spec fn spec_key(&self) -> Option<Seq<char>> {
        key_view(self.encryption_key)
    }

    /// A datastore under `dir`, with compression on, no encryption key, and a
    /// backup name made of `dump-` and the current time in milliseconds.
    pub fn new(dir: String) -> (r: LocalDisk)
        ensures
            r.spec_dir() == dir@,
            r.spec_compression(),
            r.spec_key() is None,
            exists|t: nat| r.spec_dump_name() == default_dump_name(t),
    {
        let now = epoch_millis();
        let digits = decimal_string(now);
        let mut name = String::from_str("dump-");
        name.append(digits.as_str());
        proof {
            reveal_strlit("dump-");
            assert(name@ =~= default_dump_name(now as nat));
        }
        LocalDisk { dir, dump_name: name, enable_compression: true, encryption_key: None }
    }

    /// Settles initialization from what loading the persisted catalog returned:
    /// an existing catalog is kept as it is and need not be written; where there
    /// was none (`NotFound`), an empty one is made and has to be persisted; any
    /// other load failure, such as a corrupt catalog, is returned unchanged, so
    /// that nothing overwrites it.
    pub fn create_index_file(&self, loaded: Result<IndexFile, DatastoreError>) -> (r: Result<(IndexFile, bool), DatastoreError>)
        ensures
            match r {
                Ok((c, must_write)) => initialized(
                    match loaded {
                        Ok(l) => Ok(l@),
                        Err(e) => Err(e),
                    },
                ) == Ok::<(Seq<BackupView>, bool), DatastoreError>((c@, must_write)),
                Err(e) => loaded == Err::<IndexFile, DatastoreError>(e) && e != DatastoreError::NotFound,
            },
            loaded is Ok ==> r == Ok::<(IndexFile, bool), DatastoreError>((loaded->Ok_0, false)),
    {
        match loaded {
            Ok(index_file) => Ok((index_file, false)),
            Err(DatastoreError::NotFound) => Ok((IndexFile::empty(), true)),
            Err(e) => Err(e),
        }
    }

    /// The directory that holds the datastore.
    pub fn dir(&self) -> (r: &String)
        ensures
            r@ == self.spec_dir(),
    {
        &self.dir
    }

    /// The name of the backup that writes go to.
    pub fn dump_name(&self) -> (r: &String)
        ensures
            r@ == self.spec_dump_name(),
    {
        &self.dump_name
    }

    pub fn compression_enabled(&self) -> (r: bool)
        ensures
            r == self.spec_compression(),
    {
        self.enable_compression
    }

    pub fn set_compression(&mut self, enable: bool)
        ensures
            final(self).spec_compression() == enable,
            final(self).spec_key() == old(self).spec_key(),
            final(self).spec_dump_name() == old(self).spec_dump_name(),
            final(self).spec_dir() == old(self).spec_dir(),
    {
        self.enable_compression = enable;
    }

    pub fn encryption_key(&self) -> (r: &Option<String>)
        ensures
            key_view(*r) == self.spec_key(),
    {
        &self.encryption_key
    }

    pub fn set_encryption_key(&mut self, key: String)
        ensures
            final(self).spec_key() == Some(key@),
            final(self).spec_compression() == old(self).spec_compression(),
            final(self).spec_dump_name() == old(self).spec_dump_name(),
            final(self).spec_dir() == old(self).spec_dir(),
    {
        self.encryption_key = Some(key);
    }

    /// Removes the encryption key: later writes are not encrypted.
    pub fn clear_encryption_key(&mut self)
        ensures
            final(self).spec_key() is None,
            final(self).spec_compression() == old(self).spec_compression(),
            final(self).spec_dump_name() == old(self).spec_dump_name(),
            final(self).spec_dir() == old(self).spec_dir(),
    {
        self.encryption_key = None;
    }

    pub fn set_dump_name(&mut self, name: String)
        ensures
            final(self).spec_dump_name() == name@,
            final(self).spec_compression() == old(self).spec_compression(),
            final(self).spec_key() == old(self).spec_key(),
            final(self).spec_dir() == old(self).spec_dir(),
    {
        self.dump_name = name;
    }

    /// The transforms that a write applies: compression where it is enabled,
    /// then encryption where a key is set.
    pub fn write_transforms(&self) -> (r: Transforms)
        ensures
            r.compress == self.spec_compression(),
            key_view(r.encryption_key) == self.spec_key(),
    {
        let encryption_key = match &self.encryption_key {
            Some(k) => Some(k.clone()),
            None => None,
        };
        Transforms { compress: self.enable_compression, encryption_key }
    }

    /// The transforms that reading a chunk of `backup` reverses, by the flags
    /// that the backup was created with: decryption where it is encrypted, then
    /// decompression where it is compressed. An encrypted backup and no key is
    /// `Misconfiguration`.
    pub fn read_transforms(&self, backup: &Backup) -> (r: Result<Transforms, DatastoreError>)
        ensures
            match r {
                Ok(t) => read_plan(backup@, self.spec_key()) == Ok::<(bool, Option<Seq<char>>), DatastoreError>(
                    (t.compress, key_view(t.encryption_key)),
                ),
                Err(e) => read_plan(backup@, self.spec_key()) == Err::<(bool, Option<Seq<char>>), DatastoreError>(e),
            },
    {
        if backup.encrypted {
            match &self.encryption_key {
                Some(k) => Ok(Transforms { compress: backup.compressed, encryption_key: Some(k.clone()) }),
                None => Err(DatastoreError::Misconfiguration),
            }
        } else {
            Ok(Transforms { compress: backup.compressed, encryption_key: None })
        }
    }

    /// Accounts in `catalog` for a transformed chunk of `len` bytes just written
    /// under the current backup name at time `now`: the backup's size grows by
    /// `len`, or a record is created with this size, time and the current flags.
    pub fn record_chunk(&self, catalog: &mut IndexFile, len: u64, now: u64)
        requires
            old(catalog).wf(),
            size_fits(old(catalog)@, self.spec_dump_name(), len as nat),
        ensures
            final(catalog)@ == recorded(
                old(catalog)@,
                self.spec_dump_name(),
                len as nat,
                now as nat,
                self.spec_compression(),
                self.spec_key() is Some,
            ),
            final(catalog).wf(),
    {
        catalog.record_write(&self.dump_name, len, now, self.enable_compression, self.encryption_key.is_some());
    }

    /// The name of the file that holds chunk `chunk`.
    pub fn chunk_file_name(chunk: u16) -> (r: String)
        ensures
            r@ == chunk_file_name_of(chunk as nat),
    {
        let mut name = decimal_string(chunk as u64);
        name.append(".dump");
        proof {
            reveal_strlit(".dump");
        }
        name
    }
}

} // verus!
