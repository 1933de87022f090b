//! The global fingerprint: per-file digests are combined in byte-wise path
//! order into one digest, so the result depends only on which files exist and
//! what they hold, never on enumeration order.

use vstd::prelude::*;
use crate::digest::{blake3_hex, blake3_of, hex_of, lemma_hex_of_ascii};

verus! {

broadcast use vstd::seq_lib::group_to_multiset_ensures, vstd::multiset::group_multiset_axioms;

/// One file's raw-content digest.
pub struct FileHash {
    /// Absolute path of the file.
    pub path: String,
    /// Lowercase hexadecimal digest of the file's bytes.
    pub hash: String,
    /// Size of the file in bytes.
    pub size: u64,
}

/// Lexicographic order over character sequences; on UTF-8 encoded paths this
/// coincides with byte-wise ordering.
pub open spec fn lex_le(a: Seq<char>, b: Seq<char>) -> bool
    decreases a.len(),
{
    if a.len() == 0 {
        true
    } else if b.len() == 0 {
        false
    } else if a[0] == b[0] {
        lex_le(a.drop_first(), b.drop_first())
    } else {
        a[0] < b[0]
    }
}

/// Either order holds: the order is total.
pub proof fn lemma_lex_le_total(a: Seq<char>, b: Seq<char>)
    ensures
        lex_le(a, b) || lex_le(b, a),
    decreases a.len(),
{
    if a.len() > 0 && b.len() > 0 && a[0] == b[0] {
        lemma_lex_le_total(a.drop_first(), b.drop_first());
    }
}

/// Two sequences below each other are equal: the order is antisymmetric.
pub proof fn lemma_lex_le_antisym(a: Seq<char>, b: Seq<char>)
    requires
        lex_le(a, b),
        lex_le(b, a),
    ensures
        a =~= b,
    decreases a.len(),
{
    if a.len() > 0 && b.len() > 0 {
        assert(a[0] == b[0]);
        lemma_lex_le_antisym(a.drop_first(), b.drop_first());
        assert(a =~= seq![a[0]] + a.drop_first());
        assert(b =~= seq![b[0]] + b.drop_first());
    }
}

/// The order is transitive.
pub proof fn lemma_lex_le_trans(a: Seq<char>, b: Seq<char>, c: Seq<char>)
    requires
        lex_le(a, b),
        lex_le(b, c),
    ensures
        lex_le(a, c),
    decreases a.len(),
{
    if a.len() > 0 && b.len() > 0 && c.len() > 0 {
        if a[0] == b[0] && b[0] == c[0] {
            lemma_lex_le_trans(a.drop_first(), b.drop_first(), c.drop_first());
        }
    }
}

/// Discarding an equal prefix does not change the order.
proof fn lemma_lex_le_skip(a: Seq<char>, b: Seq<char>, i: int)
    requires
        0 <= i <= a.len(),
        i <= b.len(),
        forall|j: int| 0 <= j < i ==> a[j] == b[j],
    ensures
        lex_le(a, b) == lex_le(a.skip(i), b.skip(i)),
    decreases i,
{
    if i > 0 {
        assert(a.len() > 0 && b.len() > 0 && a[0] == b[0]);
        lemma_lex_le_skip(a.drop_first(), b.drop_first(), i - 1);
        assert(a.drop_first().skip(i - 1) =~= a.skip(i));
        assert(b.drop_first().skip(i - 1) =~= b.skip(i));
    } else {
        assert(a.skip(0) =~= a);
        assert(b.skip(0) =~= b);
    }
}

/// Whether `a` stands at or before `b` in path order.
pub fn string_le(a: &String, b: &String) -> (r: bool)
    ensures
        r == lex_le(a@, b@),
{
    let la = a.as_str().unicode_len();
    let lb = b.as_str().unicode_len();
    let mut i: usize = 0;
    while i < la && i < lb
        invariant
            la == a@.len(),
            lb == b@.len(),
            i <= la,
            i <= lb,
            forall|j: int| 0 <= j < i ==> a@[j] == b@[j],
        decreases la - i,
    {
        let ca = a.as_str().get_char(i);
        let cb = b.as_str().get_char(i);
        if ca != cb {
            proof {
                lemma_lex_le_skip(a@, b@, i as int);
                assert(a@.skip(i as int)[0] == ca);
                assert(b@.skip(i as int)[0] == cb);
            }
            return ca < cb;
        }
        i = i + 1;
    }
    proof {
        lemma_lex_le_skip(a@, b@, i as int);
        if i == la {
            assert(a@.skip(i as int).len() == 0);
        } else {
            assert(b@.skip(i as int).len() == 0);
            assert(a@.skip(i as int).len() > 0);
        }
    }
    la <= lb
}

/// The files stand in path order.
pub open spec fn sorted_files(s: Seq<FileHash>) -> bool {
    forall|i: int, j: int|
        0 <= i < j < s.len() ==> lex_le(#[trigger] s[i].path@, #[trigger] s[j].path@)
}

/// No two files share a path, as in any file-system scan.
pub open spec fn distinct_paths(s: Seq<FileHash>) -> bool {
    forall|i: int, j: int| 0 <= i < j < s.len() ==> (#[trigger] s[i].path@) != (#[trigger] s[j].path@)
}

/// The bytes fed into the global digest: each file's hexadecimal digest, in
/// sequence order.
pub open spec fn digest_stream(s: Seq<FileHash>) -> Seq<u8>
    decreases s.len(),
{
    if s.len() == 0 {
        Seq::empty()
    } else {
        digest_stream(s.drop_last()) + vstd::utf8::encode_utf8(s.last().hash@)
    }
}

/// `r` is a fingerprint of the file set: the digest of the digest stream of
/// some path-sorted arrangement of the files.
pub open spec fn is_fingerprint_of(files: Seq<FileHash>, r: Seq<char>) -> bool {
    exists|ss: Seq<FileHash>|
        ss.to_multiset() == files.to_multiset() && sorted_files(ss) && r == hex_of(
            blake3_of(digest_stream(ss)),
        )
}

/// Rearrange the files into path order.
#[verifier::loop_isolation(false)]
fn sort_files(files: Vec<FileHash>) -> (r: Vec<FileHash>)
    ensures
        sorted_files(r@),
        r@.to_multiset() == files@.to_multiset(),
    {
    let mut work = files;
    let mut i: usize = 1;
    while i < work.len()
        invariant
            work@.to_multiset() == files@.to_multiset(),
            1 <= i,
            i <= work@.len() || work@.len() == 0,
            sorted_files(work@.subrange(0, i as int)) || i > work@.len(),
            forall|a: int, b: int|
                0 <= a < b < work@.len() && b < i ==> lex_le(
                    #[trigger] work@[a].path@,
                    #[trigger] work@[b].path@,
                ),
        decreases work@.len() - i,
    {
        let ghost pre = work@;
        let x = work.remove(i);
        // find the insertion position in the sorted prefix
        let mut p: usize = 0;
        while p < i && string_le(&work[p].path, &x.path)
            invariant
                work@ == pre.remove(i as int),
                i < pre.len(),
                x == pre[i as int],
                p <= i,
                forall|j: int| 0 <= j < p ==> lex_le(#[trigger] work@[j].path@, x.path@),
            decreases i - p,
        {
            p = p + 1;
        }
        proof {
            if p < i {
                lemma_lex_le_total(work@[p as int].path@, x.path@);
            }
        }
        work.insert(p, x);
        proof {
            let cur = work@;
            assert(cur == pre.remove(i as int).insert(p as int, x));
            assert(cur.to_multiset() == pre.to_multiset()) by {
                assert(pre.remove(i as int).to_multiset() == pre.to_multiset().remove(
                    pre[i as int],
                ));
                assert(cur.to_multiset() == pre.remove(i as int).to_multiset().insert(x));
                assert(pre.to_multiset().contains(pre[i as int])) by {
                    assert(pre.contains(pre[i as int]));
                }
                assert(pre.to_multiset().remove(x).insert(x) =~= pre.to_multiset());
            }
            // the prefix of length i + 1 is sorted
            assert forall|a: int, b: int|
                0 <= a < b < cur.len() && b < i + 1 implies lex_le(
                #[trigger] cur[a].path@,
                #[trigger] cur[b].path@,
            ) by {
                let rem = pre.remove(i as int);
                if a < p && b < p {
                    assert(cur[a] == rem[a] && cur[b] == rem[b]);
                } else if a < p && b == p {
                    assert(cur[a] == rem[a]);
                } else if a < p && b > p {
                    assert(cur[a] == rem[a] && cur[b] == rem[b - 1]);
                } else if a == p && b > p {
                    assert(cur[b] == rem[b - 1]);
                    assert(!lex_le(rem[p as int].path@, x.path@));
                    lemma_lex_le_total(rem[p as int].path@, x.path@);
                    if b - 1 > p {
                        lemma_lex_le_trans(x.path@, rem[p as int].path@, rem[b - 1].path@);
                    }
                } else {
                    assert(a > p);
                    assert(cur[a] == rem[a - 1] && cur[b] == rem[b - 1]);
                }
            }
        }
        i = i + 1;
    }
    proof {
        if work@.len() > 0 {
            assert(sorted_files(work@)) by {
                assert forall|a: int, b: int|
                    0 <= a < b < work@.len() implies lex_le(
                    #[trigger] work@[a].path@,
                    #[trigger] work@[b].path@,
                ) by {}
            }
        }
    }
    work
}

/// The global fingerprint of a scanned file set: sort the per-file digests by
/// path and digest their concatenation. Path-order independent by
/// construction; see `law_fingerprint_order_independent`.
pub fn global_fingerprint(files: Vec<FileHash>) -> (r: String)
    ensures
        is_fingerprint_of(files@, r@),
        r@.len() == 64,
        vstd::utf8::is_ascii_chars(r@),
    {
    let sorted = sort_files(files);
    let mut stream: Vec<u8> = Vec::new();
    let mut i: usize = 0;
    while i < sorted.len()
        invariant
            i <= sorted@.len(),
            stream@ == digest_stream(sorted@.subrange(0, i as int)),
        decreases sorted@.len() - i,
    {
        let ghost pre = stream@;
        let mut piece = sorted[i].hash.as_str().as_bytes_vec();
        stream.append(&mut piece);
        proof {
            let sub = sorted@.subrange(0, i + 1);
            assert(sub.drop_last() =~= sorted@.subrange(0, i as int));
            assert(sub.last() == sorted@[i as int]);
            assert(stream@ == digest_stream(sub));
        }
        i = i + 1;
    }
    proof {
        assert(sorted@.subrange(0, sorted@.len() as int) =~= sorted@);
        lemma_hex_of_ascii(blake3_of(stream@));
    }
    let r = blake3_hex(&stream);
    proof {
        assert(is_fingerprint_of(files@, r@)) by {
            assert(sorted@.to_multiset() == files@.to_multiset() && sorted_files(sorted@) && r@
                == hex_of(blake3_of(digest_stream(sorted@))));
        }
    }
    r
}

/// A sequence multiset-equal to one with pairwise distinct paths also has
/// pairwise distinct paths.
proof fn lemma_distinct_paths_multiset(a: Seq<FileHash>, b: Seq<FileHash>)
    requires
        a.to_multiset() == b.to_multiset(),
        distinct_paths(a),
    ensures
        distinct_paths(b),
    decreases b.len(),
{
    if b.len() > 0 {
        let x = b[0];
        assert(b.contains(x));
        assert(a.to_multiset().contains(x));
        assert(a.contains(x));
        let i = choose|i: int| 0 <= i < a.len() && a[i] == x;
        let a2 = a.remove(i);
        let b2 = b.drop_first();
        assert(b2 =~= b.remove(0));
        assert(a2.to_multiset() == a.to_multiset().remove(x));
        assert(b2.to_multiset() == b.to_multiset().remove(x));
        assert(distinct_paths(a2)) by {
            assert forall|p: int, q: int|
                0 <= p < q < a2.len() implies (#[trigger] a2[p].path@) != (
            #[trigger] a2[q].path@) by {
                if q < i {
                    assert(a2[p] == a[p] && a2[q] == a[q]);
                } else if p < i {
                    assert(a2[p] == a[p] && a2[q] == a[q + 1]);
                } else {
                    assert(a2[p] == a[p + 1] && a2[q] == a[q + 1]);
                }
            }
        }
        lemma_distinct_paths_multiset(a2, b2);
        assert forall|q: int| 1 <= q < b.len() implies b[q].path@ != x.path@ by {
            if b[q].path@ == x.path@ {
                let y = b[q];
                assert(b2[q - 1] == y);
                assert(b2.contains(y));
                assert(a2.to_multiset().contains(y));
                assert(a2.contains(y));
                let iy = choose|iy: int| 0 <= iy < a2.len() && a2[iy] == y;
                // the matching element of `a` shares its path with a[i]
                if iy < i {
                    assert(a2[iy] == a[iy]);
                    assert(a[iy].path@ == a[i].path@);
                } else {
                    assert(a2[iy] == a[iy + 1]);
                    assert(a[iy + 1].path@ == a[i].path@);
                }
            }
        }
        assert forall|p: int, q: int|
            0 <= p < q < b.len() implies (#[trigger] b[p].path@) != (#[trigger] b[q].path@) by {
            if p == 0 {
                assert(b[q].path@ != x.path@);
            } else {
                assert(b2[p - 1] == b[p] && b2[q - 1] == b[q]);
            }
        }
    }
}

/// Two path-sorted arrangements of one file multiset are equal, when paths
/// are pairwise distinct.
proof fn lemma_sorted_unique_paths(x: Seq<FileHash>, y: Seq<FileHash>)
    requires
        sorted_files(x),
        sorted_files(y),
        distinct_paths(x),
        x.to_multiset() == y.to_multiset(),
    ensures
        x =~= y,
    decreases x.len(),
{
    assert(x.to_multiset().len() == x.len());
    assert(y.to_multiset().len() == y.len());
    if x.len() == 0 || y.len() == 0 {
    } else {
        assert(y.contains(y[0]));
        assert(x.to_multiset().contains(y[0]));
        assert(x.contains(y[0]));
        let i = choose|i: int| 0 <= i < x.len() && x[i] == y[0];
        assert(x.contains(x[0]));
        assert(y.to_multiset().contains(x[0]));
        assert(y.contains(x[0]));
        let j = choose|j: int| 0 <= j < y.len() && y[j] == x[0];
        // both first elements lie below each other in path order
        if i > 0 {
            assert(lex_le(x[0].path@, x[i].path@));
        }
        if j > 0 {
            assert(lex_le(y[0].path@, y[j].path@));
        }
        assert(lex_le(x[0].path@, y[0].path@) || x[0].path@ == y[0].path@);
        assert(lex_le(y[0].path@, x[0].path@) || x[0].path@ == y[0].path@);
        if x[0].path@ != y[0].path@ {
            lemma_lex_le_antisym(x[0].path@, y[0].path@);
        }
        // the paths agree, so by distinctness the chosen index is the first
        assert(x[i].path@ == x[0].path@);
        assert(i == 0);
        assert(x[0] == y[0]);
        let x2 = x.drop_first();
        let y2 = y.drop_first();
        assert(x2 =~= x.remove(0));
        assert(y2 =~= y.remove(0));
        assert(x2.to_multiset() == x.to_multiset().remove(x[0]));
        assert(y2.to_multiset() == y.to_multiset().remove(y[0]));
        assert(distinct_paths(x2)) by {
            assert forall|p: int, q: int|
                0 <= p < q < x2.len() implies (#[trigger] x2[p].path@) != (
            #[trigger] x2[q].path@) by {
                assert(x2[p] == x[p + 1] && x2[q] == x[q + 1]);
            }
        }
        assert(sorted_files(x2)) by {
            assert forall|p: int, q: int|
                0 <= p < q < x2.len() implies lex_le(
                #[trigger] x2[p].path@,
                #[trigger] x2[q].path@,
            ) by {
                assert(x2[p] == x[p + 1] && x2[q] == x[q + 1]);
            }
        }
        assert(sorted_files(y2)) by {
            assert forall|p: int, q: int|
                0 <= p < q < y2.len() implies lex_le(
                #[trigger] y2[p].path@,
                #[trigger] y2[q].path@,
            ) by {
                assert(y2[p] == y[p + 1] && y2[q] == y[q + 1]);
            }
        }
        lemma_sorted_unique_paths(x2, y2);
        assert(x =~= seq![x[0]] + x2);
        assert(y =~= seq![y[0]] + y2);
    }
}

/// The global fingerprint is path-order independent: any two scans that see
/// the same files with the same contents fingerprint identically, however
/// they enumerated them.
pub proof fn law_fingerprint_order_independent(
    f1: Seq<FileHash>,
    f2: Seq<FileHash>,
    r1: Seq<char>,
    r2: Seq<char>,
)
    requires
        distinct_paths(f1),
        f1.to_multiset() == f2.to_multiset(),
        is_fingerprint_of(f1, r1),
        is_fingerprint_of(f2, r2),
    ensures
        r1 == r2,
{
    let ss1 = choose|ss: Seq<FileHash>|
        ss.to_multiset() == f1.to_multiset() && sorted_files(ss) && r1 == hex_of(
            blake3_of(digest_stream(ss)),
        );
    let ss2 = choose|ss: Seq<FileHash>|
        ss.to_multiset() == f2.to_multiset() && sorted_files(ss) && r2 == hex_of(
            blake3_of(digest_stream(ss)),
        );
    lemma_distinct_paths_multiset(f1, ss1);
    lemma_sorted_unique_paths(ss1, ss2);
    assert(digest_stream(ss1) == digest_stream(ss2));
}

/// The persistent cache key of one script run: the script name, a colon, and
/// the first 16 hexadecimal characters of the global fingerprint.
pub fn cache_key(script: &String, fingerprint: &String) -> (r: String)
    requires
        fingerprint@.len() >= 16,
        vstd::utf8::is_ascii_chars(fingerprint@),
    ensures
        r@ == script@ + ":"@ + fingerprint@.subrange(0, 16),
{
    let mut r = script.clone();
    r.append(":");
    let prefix = fingerprint.as_str().substring_ascii(0, 16);
    r.append(prefix);
    r
}

/// Two runs over an unchanged file tree produce identical cache keys: the
/// fingerprints agree however the files were enumerated, and the key is a
/// function of the script name and the fingerprint alone.
pub proof fn law_cache_key_idempotent(
    script: Seq<char>,
    f1: Seq<FileHash>,
    f2: Seq<FileHash>,
    h1: Seq<char>,
    h2: Seq<char>,
)
    requires
        distinct_paths(f1),
        f1.to_multiset() == f2.to_multiset(),
        is_fingerprint_of(f1, h1),
        is_fingerprint_of(f2, h2),
    ensures
        script + ":"@ + h1.subrange(0, 16) == script + ":"@ + h2.subrange(0, 16),
{
    law_fingerprint_order_independent(f1, f2, h1, h2);
}

} // verus!
