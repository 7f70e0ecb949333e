use vstd::prelude::*;

use crate::digits::{
    decimal, digits_value, is_canonical, is_digit, lemma_canonical_decimal, lemma_decimal_canonical,
    lemma_digits_prefix_monotone,
};
use crate::error::DatastoreError;

verus! {

/// The suffix of every chunk file's name.
pub open spec fn chunk_suffix() -> Seq<char> {
    seq!['.', 'd', 'u', 'm', 'p']
}

/// The name of the file that holds chunk `n`.
pub open spec fn chunk_file_name_of(n: nat) -> Seq<char> {
    decimal(n) + chunk_suffix()
}

/// `s` names the file of some chunk.
pub open spec fn is_chunk_file_name(s: Seq<char>) -> bool {
    exists|n: u16| s == #[trigger] chunk_file_name_of(n as nat)
}

/// The chunk whose file `s` names (meaningful where `s` names one).
pub open spec fn chunk_of(s: Seq<char>) -> u16 {
    choose|n: u16| s == #[trigger] chunk_file_name_of(n as nat)
}

/// The chunks that the files `names` hold, in the order of `names`.
pub open spec fn chunks_named(names: Seq<String>) -> Seq<u16> {
    names.map_values(|s: String| chunk_of(s@))
}

/// `s` is in non-decreasing order.
pub open spec fn sorted(s: Seq<u16>) -> bool {
    forall|a: int, b: int| 0 <= a < b < s.len() ==> s[a] <= s[b]
}

/// What a chunk file's name is made of.
proof fn lemma_chunk_name_parts(s: Seq<char>, n: nat)
    requires
        s == chunk_file_name_of(n),
    ensures
        s.len() >= 6,
        s.subrange(0, s.len() - 5) == decimal(n),
        s.subrange(s.len() - 5, s.len() as int) == chunk_suffix(),
        is_canonical(decimal(n)),
        digits_value(decimal(n)) == n,
{
    lemma_decimal_canonical(n);
    assert(s.subrange(0, s.len() - 5) =~= decimal(n));
    assert(s.subrange(s.len() - 5, s.len() as int) =~= chunk_suffix());
}

/// Different chunks have different file names.
proof fn lemma_chunk_name_injective(m: nat, n: nat)
    requires
        chunk_file_name_of(m) == chunk_file_name_of(n),
    ensures
        m == n,
{
    lemma_chunk_name_parts(chunk_file_name_of(m), m);
    lemma_chunk_name_parts(chunk_file_name_of(n), n);
}

/// Every chunk's file name is read back as that chunk.
pub proof fn lemma_chunk_name_round_trip(n: u16)
    ensures
        is_chunk_file_name(chunk_file_name_of(n as nat)),
        chunk_of(chunk_file_name_of(n as nat)) == n,
{
    let s = chunk_file_name_of(n as nat);
    assert(is_chunk_file_name(s));
    lemma_chunk_name_injective(chunk_of(s) as nat, n as nat);
}

/// The chunk that a file named `name` holds; `None` where `name` is not the
/// name of a chunk file.
pub fn chunk_number(name: &str) -> (r: Option<u16>)
    ensures
        match r {
            Some(n) => name@ == chunk_file_name_of(n as nat),
            None => !is_chunk_file_name(name@),
        },
{
    let len = name.unicode_len();
    if len < 6 || name.get_char(len - 5) != '.' || name.get_char(len - 4) != 'd' || name.get_char(len - 3) != 'u'
        || name.get_char(len - 2) != 'm' || name.get_char(len - 1) != 'p' {
        proof {
            lemma_suffix_mismatch(name@);
        }
        return None;
    }
    let ghost s = name@;
    let ghost p = s.subrange(0, s.len() - 5);
    let k = len - 5;
    assert(s =~= p + chunk_suffix());
    if k > 1 && name.get_char(0) == '0' {
        proof {
            assert forall|n: u16| s != #[trigger] chunk_file_name_of(n as nat) by {
                if s == chunk_file_name_of(n as nat) {
                    lemma_chunk_name_parts(s, n as nat);
                    assert(p[0] == s[0]);
                }
            }
        }
        return None;
    }
    let mut acc: u32 = 0;
    let mut i: usize = 0;
    while i < k
        invariant
            s == name@,
            len == s.len(),
            k == len - 5,
            p == s.subrange(0, s.len() - 5),
            i <= k,
            acc <= 65535,
            acc as nat == digits_value(p.subrange(0, i as int)),
            forall|j: int| 0 <= j < i ==> #[trigger] is_digit(p[j]),
        decreases k - i,
    {
        let c = name.get_char(i);
        assert(c == p[i as int]);
        if c < '0' || c > '9' {
            proof {
                assert forall|n: u16| s != #[trigger] chunk_file_name_of(n as nat) by {
                    if s == chunk_file_name_of(n as nat) {
                        lemma_chunk_name_parts(s, n as nat);
                        assert(is_digit(decimal(n as nat)[i as int]));
                    }
                }
            }
            return None;
        }
        let next: u32 = acc * 10 + (c as u32 - '0' as u32);
        assert(p.subrange(0, i + 1).drop_last() =~= p.subrange(0, i as int));
        if next > 65535 {
            proof {
                lemma_digits_prefix_monotone(p, i + 1, p.len() as int);
                assert(p.subrange(0, p.len() as int) =~= p);
                assert forall|n: u16| s != #[trigger] chunk_file_name_of(n as nat) by {
                    if s == chunk_file_name_of(n as nat) {
                        lemma_chunk_name_parts(s, n as nat);
                    }
                }
            }
            return None;
        }
        acc = next;
        i = i + 1;
    }
    proof {
        assert(p.subrange(0, k as int) =~= p);
        assert(is_canonical(p));
        lemma_canonical_decimal(p);
        assert(s == chunk_file_name_of(acc as nat));
    }
    Some(acc as u16)
}

/// A name without the chunk suffix names no chunk file.
proof fn lemma_suffix_mismatch(s: Seq<char>)
    requires
        !(s.len() >= 6 && s[s.len() - 5] == '.' && s[s.len() - 4] == 'd' && s[s.len() - 3] == 'u'
            && s[s.len() - 2] == 'm' && s[s.len() - 1] == 'p'),
    ensures
        !is_chunk_file_name(s),
{
    assert forall|n: u16| s != #[trigger] chunk_file_name_of(n as nat) by {
        if s == chunk_file_name_of(n as nat) {
            lemma_chunk_name_parts(s, n as nat);
            let t = s.subrange(s.len() - 5, s.len() as int);
            assert(t[0] == s[s.len() - 5]);
            assert(t[1] == s[s.len() - 4]);
            assert(t[2] == s[s.len() - 3]);
            assert(t[3] == s[s.len() - 2]);
            assert(t[4] == s[s.len() - 1]);
        }
    }
}

/// The chunks that the files `file_names` of a backup hold, in the order in which
/// they are read: by chunk number. Fails with `Corrupt` where a file is not a
/// chunk file.
pub fn chunk_read_order(file_names: &Vec<String>) -> (r: Result<Vec<u16>, DatastoreError>)
    ensures
        r is Err <==> exists|i: int| 0 <= i < file_names@.len() && !is_chunk_file_name(#[trigger] file_names@[i]@),
        r is Err ==> r->Err_0 == DatastoreError::Corrupt,
        r is Ok ==> sorted(r->Ok_0@),
        r is Ok ==> r->Ok_0@.to_multiset() == chunks_named(file_names@).to_multiset(),
{
    let ghost nums = chunks_named(file_names@);
    let mut out: Vec<u16> = Vec::new();
    let mut i: usize = 0;
    proof {
        broadcast use vstd::seq_lib::group_to_multiset_ensures;

        assert(out@ =~= nums.subrange(0, 0));
    }
    while i < file_names.len()
        invariant
            i <= file_names@.len(),
            nums == chunks_named(file_names@),
            sorted(out@),
            out@.to_multiset() == nums.subrange(0, i as int).to_multiset(),
            forall|j: int| 0 <= j < i ==> is_chunk_file_name(#[trigger] file_names@[j]@),
        decreases file_names@.len() - i,
    {
        let n = match chunk_number(file_names[i].as_str()) {
            Some(n) => n,
            None => {
                return Err(DatastoreError::Corrupt);
            },
        };
        proof {
            let s = file_names@[i as int]@;
            assert(is_chunk_file_name(s));
            let m = chunk_of(s);
            lemma_chunk_name_injective(m as nat, n as nat);
            assert(nums[i as int] == n);
        }
        let mut p: usize = 0;
        while p < out.len() && out[p] <= n
            invariant
                p <= out@.len(),
                forall|j: int| 0 <= j < p ==> out@[j] <= n,
            decreases out@.len() - p,
        {
            p = p + 1;
        }
        let ghost before = out@;
        out.insert(p, n);
        proof {
            assert(out@ == before.insert(p as int, n));
            assert forall|a: int, b: int| 0 <= a < b < out@.len() implies out@[a] <= out@[b] by {
                if b < p {
                } else if a < p && b == p {
                } else if a < p {
                    assert(out@[a] == before[a]);
                    assert(out@[b] == before[b - 1]);
                } else if a == p {
                    assert(before[p as int] > n);
                    assert(out@[b] == before[b - 1]);
                } else {
                    assert(out@[a] == before[a - 1]);
                    assert(out@[b] == before[b - 1]);
                }
            }
            vstd::seq_lib::to_multiset_insert(before, p as int, n);
            assert(nums.subrange(0, i + 1) =~= nums.subrange(0, i as int).push(n));
            vstd::seq_lib::to_multiset_build(nums.subrange(0, i as int), n);
        }
        i = i + 1;
    }
    assert(nums.subrange(0, i as int) =~= nums);
    Ok(out)
}

} // verus!
