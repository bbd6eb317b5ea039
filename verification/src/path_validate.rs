//! Validation and normalization of untrusted relative paths.
//!
//! Backslashes are normalized to forward slashes first, so a
//! parent-directory segment cannot hide behind them. The normalized
//! path is then read as segments separated by `/`: a `..` segment is
//! traversal and is refused; empty and `.` segments are dropped; a null
//! byte anywhere in a segment is refused. The surviving segments are
//! joined with `/`.

use vstd::prelude::*;
use vstd::string::*;

use crate::error::AppError;
use crate::text::push_char;

verus! {

/// Position of the first `/` at or after `i`, or the length of `s`.
pub open spec fn next_slash(s: Seq<char>, i: int) -> int
    decreases s.len() - i,
{
    if i < 0 || i >= s.len() {
        s.len() as int
    } else if s[i] == '/' {
        i
    } else {
        next_slash(s, i + 1)
    }
}

pub proof fn lemma_next_slash_bounds(s: Seq<char>, i: int)
    requires
        0 <= i <= s.len(),
    ensures
        i <= next_slash(s, i) <= s.len(),
        next_slash(s, i) < s.len() ==> s[next_slash(s, i)] == '/',
        forall|k: int| i <= k < next_slash(s, i) ==> s[k] != '/',
    decreases s.len() - i,
{
    if i < s.len() && s[i] != '/' {
        lemma_next_slash_bounds(s, i + 1);
    }
}

pub proof fn lemma_next_slash_reach(s: Seq<char>, i: int, j: int)
    requires
        0 <= i <= j <= s.len(),
        forall|k: int| i <= k < j ==> s[k] != '/',
        j == s.len() || s[j] == '/',
    ensures
        next_slash(s, i) == j,
    decreases j - i,
{
    if i < j {
        assert(s[i] != '/');
        lemma_next_slash_reach(s, i + 1, j);
    }
}

/// What a left-to-right scan of the segments finds first.
pub enum SegScan {
    Traversal,
    NullByte,
    Clean,
}

/// True of the one segment that names the parent directory.
pub open spec fn is_traversal_seg(seg: Seq<char>) -> bool {
    seg.len() == 2 && seg[0] == '.' && seg[1] == '.'
}

/// True of a segment that survives normalization.
pub open spec fn is_kept_seg(seg: Seq<char>) -> bool {
    seg.len() > 0 && !(seg.len() == 1 && seg[0] == '.')
}

/// Scan segments from position `i`, reporting the first offending one.
pub open spec fn seg_scan(s: Seq<char>, i: int) -> SegScan
    decreases s.len() - i + 1,
    via seg_scan_dec
{
    if !(0 <= i <= s.len()) {
        SegScan::Clean
    } else {
        let j = next_slash(s, i);
        let seg = s.subrange(i, j);
        if is_traversal_seg(seg) {
            SegScan::Traversal
        } else if seg.contains('\0') {
            SegScan::NullByte
        } else if j >= s.len() {
            SegScan::Clean
        } else {
            seg_scan(s, j + 1)
        }
    }
}

#[via_fn]
proof fn seg_scan_dec(s: Seq<char>, i: int) {
    if 0 <= i <= s.len() {
        lemma_next_slash_bounds(s, i);
    }
}

/// Map a backslash to a forward slash; leave any other character alone.
pub open spec fn fix_sep(c: char) -> char {
    if c == '\\' {
        '/'
    } else {
        c
    }
}

/// The raw path with every backslash turned into a forward slash; the
/// form the segment scan runs over.
pub open spec fn norm_seps(s: Seq<char>) -> Seq<char> {
    s.map_values(|c: char| fix_sep(c))
}

/// Read one character of the separator-normalized path.
fn read_norm(s: &str, i: usize) -> (c: char)
    requires
        i < s@.len(),
    ensures
        c == norm_seps(s@)[i as int],
{
    let c = s.get_char(i);
    if c == '\\' {
        '/'
    } else {
        c
    }
}

/// Join two already-clean pieces with a separator when both are non-empty.
pub open spec fn join2(a: Seq<char>, b: Seq<char>) -> Seq<char> {
    if a.len() > 0 && b.len() > 0 {
        a + seq!['/'] + b
    } else {
        a + b
    }
}

pub proof fn lemma_join2_empty(a: Seq<char>)
    ensures
        join2(a, Seq::<char>::empty()) == a,
        join2(Seq::<char>::empty(), a) == a,
{
    assert(join2(a, Seq::<char>::empty()) =~= a);
    assert(join2(Seq::<char>::empty(), a) =~= a);
}

pub proof fn lemma_join2_assoc(a: Seq<char>, b: Seq<char>, c: Seq<char>)
    ensures
        join2(a, join2(b, c)) == join2(join2(a, b), c),
{
    assert(join2(a, join2(b, c)) =~= join2(join2(a, b), c));
}

/// The path built from the kept segments at or after `i`, joined by
/// forward slashes.
pub open spec fn clean_from(s: Seq<char>, i: int) -> Seq<char>
    decreases s.len() - i + 1,
    via clean_from_dec
{
    if !(0 <= i <= s.len()) {
        Seq::empty()
    } else {
        let j = next_slash(s, i);
        let seg = s.subrange(i, j);
        let rest = if j >= s.len() {
            Seq::empty()
        } else {
            clean_from(s, j + 1)
        };
        if is_kept_seg(seg) {
            join2(seg, rest)
        } else {
            rest
        }
    }
}

#[via_fn]
proof fn clean_from_dec(s: Seq<char>, i: int) {
    if 0 <= i <= s.len() {
        lemma_next_slash_bounds(s, i);
    }
}

/// The canonical form of a raw path, when the scan is clean.
pub open spec fn clean_path(s: Seq<char>) -> Seq<char> {
    clean_from(s, 0)
}

/// Validate and normalize a relative file path.
///
/// Rejects path traversal attempts and returns a clean relative path.
pub fn validate_relative_path(rel_path: &str) -> (r: Result<String, AppError>)
    ensures
        match r {
            Ok(p) => rel_path@.len() > 0 && seg_scan(norm_seps(rel_path@), 0) is Clean
                && clean_path(norm_seps(rel_path@)).len() > 0 && p@ == clean_path(
                norm_seps(rel_path@),
            ),
            Err(e) => {
                ||| (rel_path@.len() == 0 && e is BadRequest)
                ||| (rel_path@.len() > 0 && seg_scan(norm_seps(rel_path@), 0) is Traversal
                    && e is Forbidden)
                ||| (rel_path@.len() > 0 && seg_scan(norm_seps(rel_path@), 0) is NullByte
                    && e is BadRequest)
                ||| (rel_path@.len() > 0 && seg_scan(norm_seps(rel_path@), 0) is Clean
                    && clean_path(norm_seps(rel_path@)).len() == 0 && e is BadRequest)
            },
        },
{
    let ghost s = norm_seps(rel_path@);
    let n = rel_path.unicode_len();
    proof {
        assert(s.len() == rel_path@.len());
    }
    if n == 0 {
        return Err(AppError::BadRequest(String::from_str("Empty path")));
    }
    let mut out = String::new();
    let mut i: usize = 0;
    proof {
        lemma_join2_empty(clean_from(s, 0));
    }
    loop
        invariant_except_break
            0 <= i <= n,
            i == 0 || s[i - 1] == '/',
            seg_scan(s, 0) == seg_scan(s, i as int),
            clean_path(s) == join2(out@, clean_from(s, i as int)),
        invariant
            n == s.len(),
            n > 0,
            s == norm_seps(rel_path@),
        ensures
            seg_scan(s, 0) is Clean,
            clean_path(s) == out@,
        decreases n - i,
    {
        // find the end of the current segment
        let mut j: usize = i;
        while j < n && read_norm(rel_path, j) != '/'
            invariant
                n == s.len(),
                i <= j <= n,
                s == norm_seps(rel_path@),
                forall|k: int| i <= k < j ==> s[k] != '/',
            decreases n - j,
        {
            j += 1;
        }
        proof {
            lemma_next_slash_reach(s, i as int, j as int);
            lemma_next_slash_bounds(s, i as int);
        }
        let ghost seg = s.subrange(i as int, j as int);
        // a `..` segment is traversal
        if j - i == 2 && read_norm(rel_path, i) == '.' && read_norm(rel_path, i + 1) == '.' {
            proof {
                assert(seg[0] == '.' && seg[1] == '.');
            }
            return Err(AppError::Forbidden(String::from_str("Path traversal not allowed")));
        }
        proof {
            if is_traversal_seg(seg) {
                assert(j - i == 2 && s[i as int] == '.' && s[i + 1] == '.');
            }
        }
        // a null byte anywhere in the segment is refused
        let mut k: usize = i;
        while k < j
            invariant
                n == s.len(),
                i <= k <= j <= n,
                s == norm_seps(rel_path@),
                seg == s.subrange(i as int, j as int),
                j == next_slash(s, i as int),
                !is_traversal_seg(seg),
                seg_scan(s, 0) == seg_scan(s, i as int),
                forall|t: int| i <= t < k ==> s[t] != '\0',
            decreases j - k,
        {
            if read_norm(rel_path, k) == '\0' {
                proof {
                    assert(seg[k - i] == '\0');
                    assert(seg.contains('\0'));
                    assert(!is_traversal_seg(seg)) by {
                        if is_traversal_seg(seg) {
                            assert(j - i == 2 && s[i as int] == '.' && s[i + 1] == '.');
                        }
                    }
                    assert(seg_scan(s, i as int) is NullByte);
                }
                return Err(AppError::BadRequest(
                    String::from_str("Null bytes not allowed in path"),
                ));
            }
            k += 1;
        }
        proof {
            if seg.contains('\0') {
                let t = choose|t: int| 0 <= t < seg.len() && seg[t] == '\0';
                assert(s[i + t] == '\0');
            }
        }
        // keep the segment unless it is empty or `.`
        let keep = j > i && !(j - i == 1 && read_norm(rel_path, i) == '.');
        proof {
            assert(keep == is_kept_seg(seg));
        }
        let ghost out0 = out@;
        if keep {
            if out.unicode_len() > 0 {
                push_char(&mut out, '/');
            }
            proof {
                assert(s.subrange(i as int, i as int) =~= Seq::<char>::empty());
                assert(out@ =~= (if out0.len() > 0 {
                    out0 + seq!['/']
                } else {
                    out0
                }) + s.subrange(i as int, i as int));
            }
            let mut k2: usize = i;
            while k2 < j
                invariant
                    n == s.len(),
                    i <= k2 <= j <= n,
                    s == norm_seps(rel_path@),
                    out@ == (if out0.len() > 0 {
                        out0 + seq!['/']
                    } else {
                        out0
                    }) + s.subrange(i as int, k2 as int),
                decreases j - k2,
            {
                let c = read_norm(rel_path, k2);
                push_char(&mut out, c);
                proof {
                    assert(s.subrange(i as int, k2 + 1) =~= s.subrange(i as int, k2 as int).push(
                        s[k2 as int],
                    ));
                }
                k2 += 1;
            }
            proof {
                assert(out@ =~= join2(out0, seg));
            }
        }
        // step past the separator, or finish
        if j >= n {
            proof {
                assert(clean_from(s, i as int) == if is_kept_seg(seg) {
                    join2(seg, Seq::<char>::empty())
                } else {
                    Seq::<char>::empty()
                });
                lemma_join2_empty(seg);
                lemma_join2_empty(out0);
                if keep {
                    assert(clean_path(s) == join2(out0, seg));
                    assert(out@ == join2(out0, seg));
                } else {
                    assert(clean_path(s) == join2(out0, Seq::<char>::empty()));
                }
                assert(clean_path(s) == out@);
                assert(seg_scan(s, i as int) is Clean);
            }
            break ;
        }
        proof {
            assert(clean_from(s, i as int) == if is_kept_seg(seg) {
                join2(seg, clean_from(s, j + 1))
            } else {
                clean_from(s, j + 1)
            });
            if keep {
                lemma_join2_assoc(out0, seg, clean_from(s, j + 1));
            }
            assert(seg_scan(s, i as int) == seg_scan(s, j + 1));
        }
        i = j + 1;
    }
    if out.unicode_len() == 0 {
        return Err(AppError::BadRequest(String::from_str("Path resolves to empty")));
    }
    Ok(out)
}

proof fn lemma_next_slash_shift(s: Seq<char>, d: int, i: int)
    requires
        0 <= d,
        0 <= i,
        d + i <= s.len(),
    ensures
        next_slash(s, d + i) - d == next_slash(s.skip(d), i),
    decreases s.len() - (d + i),
{
    if d + i >= s.len() {
    } else if s[d + i] == '/' {
        assert(s.skip(d)[i] == '/');
    } else {
        assert(s.skip(d)[i] != '/');
        lemma_next_slash_shift(s, d, i + 1);
    }
}

proof fn lemma_seg_scan_shift(s: Seq<char>, d: int, i: int)
    requires
        0 <= d,
        0 <= i,
        d + i <= s.len(),
    ensures
        seg_scan(s, d + i) == seg_scan(s.skip(d), i),
    decreases s.len() - (d + i) + 1,
{
    let t = s.skip(d);
    lemma_next_slash_shift(s, d, i);
    lemma_next_slash_bounds(s, d + i);
    let j = next_slash(s, d + i);
    assert(s.subrange(d + i, j) =~= t.subrange(i, j - d));
    if !is_traversal_seg(s.subrange(d + i, j)) && !s.subrange(d + i, j).contains('\0') && j
        < s.len() {
        lemma_seg_scan_shift(s, d, j + 1 - d);
    }
}

proof fn lemma_clean_from_shift(s: Seq<char>, d: int, i: int)
    requires
        0 <= d,
        0 <= i,
        d + i <= s.len(),
    ensures
        clean_from(s, d + i) == clean_from(s.skip(d), i),
    decreases s.len() - (d + i) + 1,
{
    let t = s.skip(d);
    lemma_next_slash_shift(s, d, i);
    lemma_next_slash_bounds(s, d + i);
    let j = next_slash(s, d + i);
    assert(s.subrange(d + i, j) =~= t.subrange(i, j - d));
    if j < s.len() {
        lemma_clean_from_shift(s, d, j + 1 - d);
    }
}

/// A segment that can appear in a normalized path: non-empty, not `.` or
/// `..`, and free of separators and null bytes.
pub open spec fn good_seg(seg: Seq<char>) -> bool {
    &&& seg.len() > 0
    &&& !(seg.len() == 1 && seg[0] == '.')
    &&& !is_traversal_seg(seg)
    &&& !seg.contains('\0')
    &&& !seg.contains('/')
    &&& !seg.contains('\\')
}

proof fn lemma_no_slash_in_seg(seg: Seq<char>, q: Seq<char>)
    requires
        !seg.contains('/'),
        forall|k: int| 0 <= k < seg.len() ==> q[k] == seg[k],
        seg.len() <= q.len(),
    ensures
        forall|k: int| 0 <= k < seg.len() ==> q[k] != '/',
{
    assert forall|k: int| 0 <= k < seg.len() implies q[k] != '/' by {
        if q[k] == '/' {
            assert(seg[k] == '/');
            assert(seg.contains('/'));
        }
    }
}

proof fn lemma_canonical_cons(seg: Seq<char>, t: Seq<char>)
    requires
        good_seg(seg),
        t.len() > 0 ==> seg_scan(t, 0) is Clean && clean_from(t, 0) == t,
    ensures
        seg_scan(join2(seg, t), 0) is Clean,
        clean_from(join2(seg, t), 0) == join2(seg, t),
{
    let q = join2(seg, t);
    if t.len() == 0 {
        assert(q =~= seg);
        lemma_no_slash_in_seg(seg, q);
        lemma_next_slash_reach(q, 0, seg.len() as int);
        assert(q.subrange(0, seg.len() as int) =~= seg);
        assert(seg_scan(q, 0) is Clean);
        lemma_join2_empty(seg);
        assert(clean_from(q, 0) == join2(seg, Seq::<char>::empty()));
    } else {
        assert(q == seg + seq!['/'] + t);
        assert(q.len() == seg.len() + 1 + t.len());
        assert forall|k: int| 0 <= k < seg.len() implies q[k] == seg[k] by {}
        lemma_no_slash_in_seg(seg, q);
        assert(q[seg.len() as int] == '/');
        lemma_next_slash_reach(q, 0, seg.len() as int);
        assert(q.subrange(0, seg.len() as int) =~= seg);
        let d = seg.len() + 1;
        assert(q.skip(d as int) =~= t);
        lemma_seg_scan_shift(q, d as int, 0);
        lemma_clean_from_shift(q, d as int, 0);
        assert(seg_scan(q, d as int) == seg_scan(t, 0));
        assert(seg_scan(q, 0) is Clean);
        assert(clean_from(q, d as int) == t);
        assert(clean_from(q, 0) == join2(seg, t));
    }
}

proof fn lemma_clean_revalidates(s: Seq<char>, i: int)
    requires
        0 <= i <= s.len(),
        seg_scan(s, i) is Clean,
        forall|k: int| i <= k < s.len() ==> s[k] != '\\',
    ensures
        clean_from(s, i).len() > 0 ==> seg_scan(clean_from(s, i), 0) is Clean && clean_from(
            clean_from(s, i),
            0,
        ) == clean_from(s, i),
        !clean_from(s, i).contains('\\'),
    decreases s.len() - i + 1,
{
    lemma_next_slash_bounds(s, i);
    let j = next_slash(s, i);
    let seg = s.subrange(i, j);
    let rest = if j >= s.len() {
        Seq::<char>::empty()
    } else {
        clean_from(s, j + 1)
    };
    if j < s.len() {
        lemma_clean_revalidates(s, j + 1);
    }
    if is_kept_seg(seg) {
        assert(!seg.contains('\0'));
        assert(!seg.contains('/')) by {
            if seg.contains('/') {
                let k = choose|k: int| 0 <= k < seg.len() && seg[k] == '/';
                assert(s[i + k] == '/');
            }
        }
        assert(!seg.contains('\\')) by {
            if seg.contains('\\') {
                let k = choose|k: int| 0 <= k < seg.len() && seg[k] == '\\';
                assert(s[i + k] == '\\');
            }
        }
        assert(good_seg(seg));
        lemma_canonical_cons(seg, rest);
        assert(clean_from(s, i) == join2(seg, rest));
        // the joined pieces carry no backslash
        assert(!clean_from(s, i).contains('\\')) by {
            let q = join2(seg, rest);
            if q.contains('\\') {
                let k = choose|k: int| 0 <= k < q.len() && q[k] == '\\';
                if rest.len() == 0 {
                    assert(q =~= seg + rest);
                    assert(seg[k] == '\\');
                    assert(seg.contains('\\'));
                } else {
                    assert(q == seg + seq!['/'] + rest);
                    if k < seg.len() {
                        assert(seg[k] == '\\');
                        assert(seg.contains('\\'));
                    } else if k == seg.len() {
                        assert(q[k] == '/');
                    } else {
                        assert(rest[k - seg.len() - 1] == '\\');
                        assert(rest.contains('\\'));
                    }
                }
            }
        }
    }
}

/// Validation is idempotent on every accepted input: the path the
/// validator returns goes through it again unchanged. In particular the
/// output is in canonical form: separators normalized, and no empty,
/// `.` or `..` segment survives (its own segment scan is clean and its
/// own normalization is the identity).
pub proof fn lemma_validate_idempotent(s: Seq<char>)
    requires
        s.len() > 0,
        seg_scan(norm_seps(s), 0) is Clean,
        clean_path(norm_seps(s)).len() > 0,
    ensures
        ({
            let q = clean_path(norm_seps(s));
            &&& norm_seps(q) == q
            &&& seg_scan(q, 0) is Clean
            &&& clean_path(q) == q
        }),
{
    let t = norm_seps(s);
    assert forall|k: int| 0 <= k < t.len() implies t[k] != '\\' by {
        assert(t[k] == fix_sep(s[k]));
    }
    lemma_clean_revalidates(t, 0);
    let q = clean_path(t);
    assert(norm_seps(q) =~= q) by {
        assert forall|k: int| 0 <= k < q.len() implies norm_seps(q)[k] == q[k] by {
            if q[k] == '\\' {
                assert(q.contains('\\'));
            }
        }
    }
}

/// True when `resolved` stays inside `root`: it equals the root, or
/// extends it at a separator boundary.
pub open spec fn within_root(root: Seq<char>, resolved: Seq<char>) -> bool {
    ||| resolved == root
    ||| (resolved.len() > root.len() && resolved.subrange(0, root.len() as int) == root && (
    resolved[root.len() as int] == '/' || (root.len() > 0 && root[root.len() - 1] == '/')))
}

/// Validate that a resolved path is within the given root directory.
pub fn ensure_within_root(root: &str, resolved: &str) -> (r: Result<(), AppError>)
    ensures
        r is Ok <==> within_root(root@, resolved@),
        r is Err ==> r->Err_0 is Forbidden,
{
    let rn = root.unicode_len();
    let sn = resolved.unicode_len();
    if sn < rn {
        proof {
            assert(!within_root(root@, resolved@));
        }
        return Err(AppError::Forbidden(String::from_str("Path escapes repository root")));
    }
    // compare the prefix character by character
    let mut i: usize = 0;
    while i < rn
        invariant
            i <= rn <= sn,
            rn == root@.len(),
            sn == resolved@.len(),
            forall|j: int| 0 <= j < i ==> resolved@[j] == root@[j],
        decreases rn - i,
    {
        if root.get_char(i) != resolved.get_char(i) {
            proof {
                assert(resolved@.subrange(0, root@.len() as int)[i as int] != root@[i as int]);
                if resolved@ == root@ {
                    assert(resolved@[i as int] == root@[i as int]);
                }
            }
            return Err(AppError::Forbidden(String::from_str("Path escapes repository root")));
        }
        i += 1;
    }
    if sn == rn {
        proof {
            assert(resolved@ =~= root@);
        }
        return Ok(());
    }
    let boundary = resolved.get_char(rn) == '/' || (rn > 0 && root.get_char(rn - 1) == '/');
    if boundary {
        proof {
            assert(resolved@.subrange(0, root@.len() as int) =~= root@);
        }
        Ok(())
    } else {
        proof {
            if resolved@.subrange(0, root@.len() as int) == root@ {
            }
        }
        Err(AppError::Forbidden(String::from_str("Path escapes repository root")))
    }
}

} // verus!
