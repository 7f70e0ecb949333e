use vstd::prelude::*;

use crate::catalog::{has_name, index_of, removed_named, unique_names, Backup, BackupView, IndexFile};
use crate::digits::{digits_value, is_digit, lemma_digits_prefix_monotone};
use crate::error::DatastoreError;
use vstd::relations::injective_on;
use vstd::set_lib::{lemma_int_range, lemma_map_size, lemma_subset_equality, set_int_range};

verus! {

/// Milliseconds in one day.
pub const DAY_MILLIS: u64 = 86400000;

/// Which backups a deletion removes.
#[derive(Debug, Clone)]
pub enum DeleteRequest {
    /// The backup with this name.
    ByName(String),
    /// Every backup created more than this age before now; the age is written
    /// as a number of days followed by `d`, as in `7d`.
    OlderThan(String),
    /// Every backup but the given number of most recently created ones.
    KeepLast(usize),
}

/// `s` is one or more decimal digits followed by `d`.
pub open spec fn is_day_count(s: Seq<char>) -> bool {
    s.len() >= 2 && s.last() == 'd' && forall|i: int| 0 <= i < s.len() - 1 ==> #[trigger] is_digit(s[i])
}

/// The age that a day count names, in milliseconds.
pub open spec fn duration_millis(s: Seq<char>) -> nat {
    digits_value(s.drop_last()) * (DAY_MILLIS as nat)
}

/// `s` is a day count whose age in milliseconds fits in `u64`.
pub open spec fn valid_duration(s: Seq<char>) -> bool {
    is_day_count(s) && duration_millis(s) <= u64::MAX
}

/// The record at `j` counts as more recent than the one at `i`: it was created
/// later, or at the same time and stands later in the catalog.
pub open spec fn newer(s: Seq<BackupView>, j: int, i: int) -> bool {
    s[j].created_at > s[i].created_at || (s[j].created_at == s[i].created_at && j > i)
}

/// How many of the first `n` records are more recent than the one at `i`.
pub open spec fn newer_count(s: Seq<BackupView>, i: int, n: int) -> nat
    decreases n,
{
    if n <= 0 {
        0
    } else if newer(s, n - 1, i) {
        newer_count(s, i, n - 1) + 1
    } else {
        newer_count(s, i, n - 1)
    }
}

/// The position of the record at `i` when the catalog is ordered from the most
/// recent down.
pub open spec fn rank(s: Seq<BackupView>, i: int) -> nat {
    newer_count(s, i, s.len() as int)
}

/// The request selects the record at `i` for removal, `now` being the current
/// time in milliseconds.
pub open spec fn selects(s: Seq<BackupView>, i: int, req: DeleteRequest, now: nat) -> bool {
    match req {
        DeleteRequest::ByName(name) => s[i].name == name@,
        DeleteRequest::OlderThan(age) => s[i].created_at + duration_millis(age@) < now,
        DeleteRequest::KeepLast(k) => rank(s, i) >= k,
    }
}

/// `selects` as a predicate on positions.
pub open spec fn selection(s: Seq<BackupView>, req: DeleteRequest, now: nat) -> spec_fn(int) -> bool {
    |i: int| selects(s, i, req, now)
}

/// The names of the records among the first `n` that `sel` picks, in catalog order.
pub open spec fn names_where(s: Seq<BackupView>, sel: spec_fn(int) -> bool, n: int) -> Seq<Seq<char>>
    decreases n,
{
    if n <= 0 {
        Seq::empty()
    } else if sel(n - 1) {
        names_where(s, sel, n - 1).push(s[n - 1].name)
    } else {
        names_where(s, sel, n - 1)
    }
}

/// The records among the first `n` that `sel` does not pick, in catalog order.
pub open spec fn kept_where(s: Seq<BackupView>, sel: spec_fn(int) -> bool, n: int) -> Seq<BackupView>
    decreases n,
{
    if n <= 0 {
        Seq::empty()
    } else if sel(n - 1) {
        kept_where(s, sel, n - 1)
    } else {
        kept_where(s, sel, n - 1).push(s[n - 1])
    }
}

/// The request can be evaluated: a named backup exists, an age parses.
pub open spec fn request_ok(s: Seq<BackupView>, req: DeleteRequest) -> bool {
    match req {
        DeleteRequest::ByName(name) => has_name(s, name@),
        DeleteRequest::OlderThan(age) => valid_duration(age@),
        DeleteRequest::KeepLast(_) => true,
    }
}

/// The error that a request which cannot be evaluated fails with.
pub open spec fn request_error(req: DeleteRequest) -> DatastoreError {
    match req {
        DeleteRequest::OlderThan(_) => DatastoreError::InvalidDuration,
        _ => DatastoreError::NotFound,
    }
}

/// Every record that `kept_where` keeps is one of the first `n` records.
proof fn lemma_kept_from(s: Seq<BackupView>, sel: spec_fn(int) -> bool, n: int)
    requires
        0 <= n <= s.len(),
    ensures
        forall|a: int|
            0 <= a < kept_where(s, sel, n).len() ==> exists|i: int|
                0 <= i < n && !sel(i) && #[trigger] kept_where(s, sel, n)[a] == s[i],
    decreases n,
{
    if n > 0 {
        lemma_kept_from(s, sel, n - 1);
        let p = kept_where(s, sel, n - 1);
        let k = kept_where(s, sel, n);
        assert forall|a: int| 0 <= a < k.len() implies exists|i: int|
            0 <= i < n && !sel(i) && #[trigger] k[a] == s[i] by {
            if a < p.len() {
                assert(k[a] == p[a]);
                let i = choose|i: int| 0 <= i < n - 1 && !sel(i) && #[trigger] p[a] == s[i];
                assert(0 <= i < n && !sel(i) && k[a] == s[i]);
            } else {
                assert(k[a] == s[n - 1]);
            }
        }
    }
}

/// Keeping a part of a catalog with unique names keeps them unique.
pub proof fn lemma_kept_unique(s: Seq<BackupView>, sel: spec_fn(int) -> bool, n: int)
    requires
        unique_names(s),
        0 <= n <= s.len(),
    ensures
        unique_names(kept_where(s, sel, n)),
    decreases n,
{
    if n > 0 {
        lemma_kept_unique(s, sel, n - 1);
        lemma_kept_from(s, sel, n - 1);
        let p = kept_where(s, sel, n - 1);
        let k = kept_where(s, sel, n);
        if !sel(n - 1) {
            assert forall|a: int, b: int|
                0 <= a < k.len() && 0 <= b < k.len() && #[trigger] k[a].name == #[trigger] k[b].name implies a
                == b by {
                if a < p.len() && b < p.len() {
                    assert(p[a].name == p[b].name);
                } else if a < p.len() {
                    let i = choose|i: int| 0 <= i < n - 1 && !sel(i) && #[trigger] p[a] == s[i];
                    assert(s[i].name == s[n - 1].name);
                } else if b < p.len() {
                    let i = choose|i: int| 0 <= i < n - 1 && !sel(i) && #[trigger] p[b] == s[i];
                    assert(s[i].name == s[n - 1].name);
                }
            }
        }
    }
}

proof fn lemma_by_name_prefix(s: Seq<BackupView>, name: Seq<char>, sel: spec_fn(int) -> bool, n: int)
    requires
        unique_names(s),
        has_name(s, name),
        0 <= n <= s.len(),
        forall|i: int| 0 <= i < s.len() ==> #[trigger] sel(i) == (s[i].name == name),
    ensures
        n <= index_of(s, name) ==> names_where(s, sel, n) == Seq::<Seq<char>>::empty()
            && kept_where(s, sel, n) == s.subrange(0, n),
        n > index_of(s, name) ==> names_where(s, sel, n) == seq![name]
            && kept_where(s, sel, n) == s.subrange(0, n).remove(index_of(s, name)),
    decreases n,
{
    let x = index_of(s, name);
    assert(s[x].name == name);
    if n > 0 {
        lemma_by_name_prefix(s, name, sel, n - 1);
        if n - 1 != x {
            assert(s[n - 1].name != name);
        }
        if n <= x {
            assert(kept_where(s, sel, n) =~= s.subrange(0, n));
        } else if n - 1 == x {
            assert(names_where(s, sel, n) =~= seq![name]);
            assert(kept_where(s, sel, n) =~= s.subrange(0, n).remove(x));
        } else {
            assert(kept_where(s, sel, n) =~= s.subrange(0, n).remove(x));
        }
    } else {
        assert(kept_where(s, sel, n) =~= s.subrange(0, n));
    }
}

/// Deleting by the name of an existing backup selects that name alone and leaves
/// the catalog without its record, every other record unchanged and in order.
pub proof fn lemma_delete_by_name(s: Seq<BackupView>, name: String, now: nat)
    requires
        unique_names(s),
        has_name(s, name@),
    ensures
        names_where(s, selection(s, DeleteRequest::ByName(name), now), s.len() as int) == seq![name@],
        kept_where(s, selection(s, DeleteRequest::ByName(name), now), s.len() as int) == removed_named(
            s,
            name@,
        ),
        removed_named(s, name@).len() == s.len() - 1,
        !has_name(removed_named(s, name@), name@),
        forall|b: BackupView| s.contains(b) && b.name != name@ ==> removed_named(s, name@).contains(b),
{
    let sel = selection(s, DeleteRequest::ByName(name), now);
    let x = index_of(s, name@);
    lemma_by_name_prefix(s, name@, sel, s.len() as int);
    assert(s.subrange(0, s.len() as int) =~= s);
    let r = removed_named(s, name@);
    if has_name(r, name@) {
        let j = choose|j: int| 0 <= j < r.len() && #[trigger] r[j].name == name@;
        if j < x {
            assert(s[j].name == s[x].name);
        } else {
            assert(s[j + 1].name == s[x].name);
        }
    }
    assert forall|b: BackupView| s.contains(b) && b.name != name@ implies r.contains(b) by {
        let i = choose|i: int| 0 <= i < s.len() && s[i] == b;
        if i < x {
            assert(r[i] == b);
        } else {
            assert(i != x);
            assert(r[i - 1] == b);
        }
    }
}

/// `newer` is transitive.
proof fn lemma_newer_transitive(s: Seq<BackupView>, a: int, b: int, c: int)
    requires
        newer(s, a, b),
        newer(s, b, c),
    ensures
        newer(s, a, c),
{
}

/// Where `j` is more recent than `i`, everything more recent than `j` is more recent
/// than `i`, and so is `j`.
proof fn lemma_newer_count_dominates(s: Seq<BackupView>, i: int, j: int, n: int)
    requires
        0 <= n <= s.len(),
        0 <= i < s.len(),
        0 <= j < s.len(),
        newer(s, j, i),
    ensures
        newer_count(s, i, n) >= newer_count(s, j, n) + if j < n { 1nat } else { 0nat },
    decreases n,
{
    if n > 0 {
        lemma_newer_count_dominates(s, i, j, n - 1);
        if newer(s, n - 1, j) {
            lemma_newer_transitive(s, n - 1, j, i);
        }
    }
}

/// Keeping the last `k` backups removes none that is more recent than one it
/// keeps: every kept backup was created no earlier than every removed one.
pub proof fn lemma_keep_last_keeps_most_recent(s: Seq<BackupView>, k: usize, now: nat, i: int, j: int)
    requires
        0 <= i < s.len(),
        0 <= j < s.len(),
        !selects(s, i, DeleteRequest::KeepLast(k), now),
        selects(s, j, DeleteRequest::KeepLast(k), now),
    ensures
        s[i].created_at >= s[j].created_at,
{
    if s[i].created_at < s[j].created_at {
        lemma_newer_count_dominates(s, i, j, s.len() as int);
    }
}

/// The number of records kept is the number of positions not selected.
proof fn lemma_kept_len(s: Seq<BackupView>, sel: spec_fn(int) -> bool, m: int)
    requires
        0 <= m <= s.len(),
    ensures
        Set::new(|i: int| 0 <= i < m && !sel(i)).finite(),
        kept_where(s, sel, m).len() == Set::new(|i: int| 0 <= i < m && !sel(i)).len(),
    decreases m,
{
    let cur = Set::new(|i: int| 0 <= i < m && !sel(i));
    if m == 0 {
        assert(cur =~= Set::empty());
    } else {
        lemma_kept_len(s, sel, m - 1);
        let prev = Set::new(|i: int| 0 <= i < m - 1 && !sel(i));
        if sel(m - 1) {
            assert(cur =~= prev);
        } else {
            assert(cur =~= prev.insert(m - 1));
            assert(!prev.contains(m - 1));
        }
    }
}

proof fn lemma_newer_count_bound(s: Seq<BackupView>, i: int, m: int)
    requires
        0 <= i < s.len(),
        0 <= m <= s.len(),
    ensures
        newer_count(s, i, m) <= m,
        i < m ==> newer_count(s, i, m) < m,
    decreases m,
{
    if m > 0 {
        lemma_newer_count_bound(s, i, m - 1);
    }
}

/// No two records share a rank.
proof fn lemma_rank_injective(s: Seq<BackupView>, i: int, j: int)
    requires
        0 <= i < s.len(),
        0 <= j < s.len(),
        i != j,
    ensures
        rank(s, i) != rank(s, j),
{
    if newer(s, j, i) {
        lemma_newer_count_dominates(s, i, j, s.len() as int);
    } else {
        lemma_newer_count_dominates(s, j, i, s.len() as int);
    }
}

/// Keeping the last `k` backups keeps exactly `k` of them, or all where there are
/// no more than `k`.
pub proof fn lemma_keep_last_count(s: Seq<BackupView>, k: usize, now: nat)
    ensures
        kept_where(s, selection(s, DeleteRequest::KeepLast(k), now), s.len() as int).len() == if k
            < s.len() {
            k as int
        } else {
            s.len() as int
        },
{
    let n = s.len() as int;
    let sel = selection(s, DeleteRequest::KeepLast(k), now);
    let f = |i: int| rank(s, i) as int;
    let a = set_int_range(0, n);
    lemma_int_range(0, n);
    assert forall|x: int, y: int| a.contains(x) && a.contains(y) && #[trigger] f(x) == #[trigger] f(y) implies x
        == y by {
        if x != y {
            lemma_rank_injective(s, x, y);
        }
    }
    assert(injective_on(f, a));
    lemma_map_size(a, a.map(f), f);
    assert forall|r: int| a.map(f).contains(r) implies a.contains(r) by {
        let i = choose|i: int| a.contains(i) && r == f(i);
        lemma_newer_count_bound(s, i, n);
    }
    lemma_subset_equality(a.map(f), a);
    let t = Set::new(|i: int| 0 <= i < n && !sel(i));
    lemma_kept_len(s, sel, n);
    let m = if k < n { k as int } else { n };
    assert forall|r: int| #[trigger] t.map(f).contains(r) <==> set_int_range(0, m).contains(r) by {
        if t.map(f).contains(r) {
            let i = choose|i: int| t.contains(i) && r == f(i);
            lemma_newer_count_bound(s, i, n);
        }
        if set_int_range(0, m).contains(r) {
            assert(a.contains(r));
            assert(a.map(f).contains(r));
            let i = choose|i: int| a.contains(i) && r == f(i);
            assert(t.contains(i));
        }
    }
    assert(t.map(f) =~= set_int_range(0, m));
    assert(injective_on(f, t));
    lemma_map_size(t, t.map(f), f);
    lemma_int_range(0, m);
}

/// Where nothing among the first `n` records is picked, no name is selected and
/// every record is kept.
proof fn lemma_nothing_selected(s: Seq<BackupView>, sel: spec_fn(int) -> bool, n: int)
    requires
        0 <= n <= s.len(),
        forall|i: int| 0 <= i < n ==> !#[trigger] sel(i),
    ensures
        names_where(s, sel, n) == Seq::<Seq<char>>::empty(),
        kept_where(s, sel, n) == s.subrange(0, n),
    decreases n,
{
    if n > 0 {
        lemma_nothing_selected(s, sel, n - 1);
        assert(!sel(n - 1));
    }
    assert(kept_where(s, sel, n) =~= s.subrange(0, n));
}

/// A keep-last or older-than request that selects nothing succeeds: it removes
/// no name and keeps the catalog as it is. Keeping at least as many backups as
/// there are selects nothing.
pub proof fn lemma_empty_selection_is_success(s: Seq<BackupView>, req: DeleteRequest, now: nat)
    requires
        match req {
            DeleteRequest::ByName(_) => false,
            DeleteRequest::OlderThan(age) => valid_duration(age@),
            DeleteRequest::KeepLast(k) => true,
        },
        (forall|i: int| 0 <= i < s.len() ==> !#[trigger] selects(s, i, req, now)) || (match req {
            DeleteRequest::KeepLast(k) => k >= s.len(),
            _ => false,
        }),
    ensures
        request_ok(s, req),
        forall|i: int| 0 <= i < s.len() ==> !#[trigger] selects(s, i, req, now),
        names_where(s, selection(s, req, now), s.len() as int) == Seq::<Seq<char>>::empty(),
        kept_where(s, selection(s, req, now), s.len() as int) == s,
{
    if let DeleteRequest::KeepLast(k) = req {
        if k >= s.len() {
            assert forall|i: int| 0 <= i < s.len() implies !#[trigger] selects(s, i, req, now) by {
                lemma_newer_count_bound(s, i, s.len() as int);
            }
        }
    }
    let sel = selection(s, req, now);
    assert forall|i: int| 0 <= i < s.len() implies !#[trigger] sel(i) by {
        assert(!selects(s, i, req, now));
    }
    lemma_nothing_selected(s, sel, s.len() as int);
    assert(s.subrange(0, s.len() as int) =~= s);
}

/// Reads a day count such as `7d` as an age in milliseconds.
pub fn parse_day_count(s: &str) -> (r: Result<u64, DatastoreError>)
    ensures
        r is Ok <==> valid_duration(s@),
        r is Ok ==> r->Ok_0 as nat == duration_millis(s@),
        r is Err ==> r->Err_0 == DatastoreError::InvalidDuration,
{
    let n = s.unicode_len();
    if n < 2 || s.get_char(n - 1) != 'd' {
        return Err(DatastoreError::InvalidDuration);
    }
    let ghost digits = s@.drop_last();
    let limit: u64 = u64::MAX / DAY_MILLIS;
    let mut acc: u64 = 0;
    let mut i: usize = 0;
    while i < n - 1
        invariant
            n == s@.len(),
            n >= 2,
            digits == s@.drop_last(),
            i <= n - 1,
            acc <= limit,
            limit == u64::MAX / DAY_MILLIS,
            acc as nat == digits_value(digits.subrange(0, i as int)),
            forall|k: int| 0 <= k < i ==> #[trigger] is_digit(s@[k]),
        decreases n - 1 - i,
    {
        let c = s.get_char(i);
        if c < '0' || c > '9' {
            assert(!is_digit(s@[i as int]));
            return Err(DatastoreError::InvalidDuration);
        }
        let d: u64 = (c as u32 - '0' as u32) as u64;
        let next: u64 = acc * 10 + d;
        assert(digits.subrange(0, i + 1).drop_last() =~= digits.subrange(0, i as int));
        assert(next as nat == digits_value(digits.subrange(0, i + 1)));
        if next > limit {
            proof {
                lemma_digits_prefix_monotone(digits, i + 1, digits.len() as int);
                assert(digits.subrange(0, digits.len() as int) =~= digits);
                assert(digits_value(digits) > limit);
                assert(digits_value(digits) >= limit + 1);
                assert((limit + 1) * DAY_MILLIS > u64::MAX);
                assert(digits_value(digits) * DAY_MILLIS >= (limit + 1) * DAY_MILLIS) by (nonlinear_arith)
                    requires digits_value(digits) >= limit + 1;
            }
            return Err(DatastoreError::InvalidDuration);
        }
        acc = next;
        i = i + 1;
    }
    assert(digits.subrange(0, (n - 1) as int) =~= digits);
    assert(acc * DAY_MILLIS <= u64::MAX) by (nonlinear_arith)
        requires acc <= limit, limit == u64::MAX / DAY_MILLIS;
    Ok(acc * DAY_MILLIS)
}

/// How many records of the catalog are more recent than the one at `i`.
fn count_newer(c: &IndexFile, i: usize) -> (r: usize)
    requires
        i < c@.len(),
    ensures
        r as nat == rank(c@, i as int),
{
    let n = c.backups.len();
    let mut j: usize = 0;
    let mut count: usize = 0;
    while j < n
        invariant
            n == c@.len(),
            i < n,
            j <= n,
            count <= j,
            count as nat == newer_count(c@, i as int, j as int),
        decreases n - j,
    {
        let a = c.backups[j].created_at;
        let b = c.backups[i].created_at;
        if a > b || (a == b && j > i) {
            count = count + 1;
        }
        j = j + 1;
    }
    count
}

impl IndexFile {
    /// Removes from the catalog the backups that `request` selects, `now` being the
    /// current time in milliseconds, and returns their names in catalog order so
    /// that their storage can be removed. An empty selection is a success. Fails,
    /// leaving the catalog as it was, where the named backup does not exist
    /// (`NotFound`) or the age does not parse (`InvalidDuration`).
    pub fn delete_selected(&mut self, request: &DeleteRequest, now: u64) -> (r: Result<Vec<String>, DatastoreError>)
        requires
            old(self).wf(),
        ensures
            final(self).wf(),
            r is Ok <==> request_ok(old(self)@, *request),
            r is Err ==> r->Err_0 == request_error(*request) && final(self)@ == old(self)@,
            r is Ok ==> r->Ok_0.deep_view() == names_where(
                old(self)@,
                selection(old(self)@, *request, now as nat),
                old(self)@.len() as int,
            ),
            r is Ok ==> final(self)@ == kept_where(
                old(self)@,
                selection(old(self)@, *request, now as nat),
                old(self)@.len() as int,
            ),
    {
        let ghost s = self@;
        let ghost sel = selection(s, *request, now as nat);
        let mut age: u64 = 0;
        match request {
            DeleteRequest::ByName(name) => {
                if self.position_of(name).is_none() {
                    return Err(DatastoreError::NotFound);
                }
            },
            DeleteRequest::OlderThan(text) => {
                match parse_day_count(text.as_str()) {
                    Ok(v) => {
                        age = v;
                    },
                    Err(e) => {
                        return Err(e);
                    },
                }
            },
            DeleteRequest::KeepLast(_) => {},
        }
        let n = self.backups.len();
        let mut names: Vec<String> = Vec::new();
        let mut kept: Vec<Backup> = Vec::new();
        let mut i: usize = 0;
        while i < n
            invariant
                s == self@,
                n == s.len(),
                i <= n,
                sel == selection(s, *request, now as nat),
                request matches DeleteRequest::OlderThan(text) ==> age as nat == duration_millis(text@),
                names.deep_view() == names_where(s, sel, i as int),
                kept@.map_values(|b: Backup| b@) == kept_where(s, sel, i as int),
            decreases n - i,
        {
            let chosen = match request {
                DeleteRequest::ByName(name) => self.backups[i].directory_name == *name,
                DeleteRequest::OlderThan(_) => {
                    (self.backups[i].created_at as u128) + (age as u128) < now as u128
                },
                DeleteRequest::KeepLast(k) => count_newer(self, i) >= *k,
            };
            assert(chosen == sel(i as int));
            let ghost old_names = names.deep_view();
            let ghost old_kept = kept@.map_values(|b: Backup| b@);
            if chosen {
                names.push(self.backups[i].directory_name.clone());
                assert(names.deep_view() =~= old_names.push(s[i as int].name));
            } else {
                kept.push(self.backups[i].copied());
                assert(kept@.map_values(|b: Backup| b@) =~= old_kept.push(s[i as int]));
            }
            i = i + 1;
        }
        self.backups = kept;
        proof {
            lemma_kept_unique(s, sel, n as int);
        }
        Ok(names)
    }
}

} // verus!
