//! Scanning archives for eligible tile entries and selecting, across several
//! sources, the names that the atlas is built from.

use vstd::prelude::*;
use vstd::string::StrSliceExecFns;
use crate::archive::{
    archive_len, entry_at, readable_entries, source_unchanged, zip_entries, ArchiveError,
    EntryModel, PackSource,
};
use crate::atlas::{grid_x, grid_y, is_grid_side, Atlas};
use crate::codec::{check_texture, png_header, tile_header_ok, DecodeError};

verus! {

/// No source archive contributed any eligible name.
#[derive(Debug, Clone, Copy, PartialEq, Eq, Structural)]
pub struct EmptyDatasetError;

/// `p` is the first `p.len()` characters of `s`.
pub open spec fn has_prefix(s: Seq<char>, p: Seq<char>) -> bool {
    p.len() <= s.len() && s.subrange(0, p.len() as int) == p
}

/// `e` is the last `e.len()` characters of `s`.
pub open spec fn has_suffix(s: Seq<char>, e: Seq<char>) -> bool {
    e.len() <= s.len() && s.subrange(s.len() - e.len(), s.len() as int) == e
}

fn str_has_prefix(s: &str, p: &str) -> (r: bool)
    ensures
        r == has_prefix(s@, p@),
{
    let n = s.unicode_len();
    let m = p.unicode_len();
    if m > n {
        return false;
    }
    let mut i: usize = 0;
    while i < m
        invariant
            i <= m,
            m <= n,
            n == s@.len(),
            m == p@.len(),
            forall|j: int| 0 <= j < i ==> s@[j] == p@[j],
        decreases m - i,
    {
        if s.get_char(i) != p.get_char(i) {
            proof {
                assert(s@.subrange(0, p@.len() as int)[i as int] == s@[i as int]);
            }
            return false;
        }
        i = i + 1;
    }
    proof {
        assert(s@.subrange(0, p@.len() as int) =~= p@);
    }
    true
}

fn str_has_suffix(s: &str, e: &str) -> (r: bool)
    ensures
        r == has_suffix(s@, e@),
{
    let n = s.unicode_len();
    let m = e.unicode_len();
    if m > n {
        return false;
    }
    let off = n - m;
    let mut i: usize = 0;
    while i < m
        invariant
            i <= m,
            m <= n,
            off == n - m,
            n == s@.len(),
            m == e@.len(),
            forall|j: int| 0 <= j < i ==> s@[off + j] == e@[j],
        decreases m - i,
    {
        if s.get_char(off + i) != e.get_char(i) {
            proof {
                assert(s@.subrange(s@.len() - e@.len(), s@.len() as int)[i as int] == s@[
                    off + i as int
                ]);
            }
            return false;
        }
        i = i + 1;
    }
    proof {
        assert(s@.subrange(s@.len() - e@.len(), s@.len() as int) =~= e@);
    }
    true
}

/// The default name predicate: the entry sits under the fixed asset-texture
/// path prefix and carries the image file extension.
pub open spec fn spec_path_filter(name: Seq<char>) -> bool {
    has_prefix(name, "assets/minecraft/textures/block/"@) && has_suffix(name, ".png"@)
}

/// Tests an entry name against the default name predicate.
pub fn path_filter(path: &str) -> (r: bool)
    ensures
        r == spec_path_filter(path@),
{
    str_has_prefix(path, "assets/minecraft/textures/block/") && str_has_suffix(path, ".png")
}

/// An entry contributes a name iff it is a file, its name passes the path
/// predicate, and its contents probe as a well-formed tile image.
pub open spec fn entry_eligible(e: EntryModel) -> bool {
    &&& e.1
    &&& spec_path_filter(e.0)
    &&& png_header(e.2) is Some
    &&& tile_header_ok(png_header(e.2)->Some_0)
}

/// The names of the eligible entries, in archive order.
pub open spec fn eligible_names(entries: Seq<EntryModel>) -> Seq<Seq<char>>
    decreases entries.len(),
{
    if entries.len() == 0 {
        Seq::empty()
    } else {
        let prefix = eligible_names(entries.drop_last());
        if entry_eligible(entries.last()) {
            prefix.push(entries.last().0)
        } else {
            prefix
        }
    }
}

/// Scanning failed: an entry could not be read, or a probed entry was not a
/// decodable image at all.
#[derive(Debug, Clone, Copy, PartialEq, Eq, Structural)]
pub enum ScanError {
    Archive(ArchiveError),
    Decode(DecodeError),
}

/// A scan runs to completion: every position's entry is readable, and every
/// file entry matching the path predicate is a decodable image (whether or
/// not it then meets the tile contract, which is a filter, not an error).
pub open spec fn scan_ok(entries: Seq<EntryModel>, readable: Set<int>) -> bool {
    forall|i: int|
        0 <= i < entries.len() ==> readable.contains(i) && ((#[trigger] entries[i]).1
            && spec_path_filter(entries[i].0) ==> png_header(entries[i].2) is Some)
}

/// Enumerates every entry of the archive and keeps the names of those that
/// are files, match the path predicate, and probe as well-formed tiles;
/// entries that fail the probe are silently skipped, as a filter, not an
/// error. The scan succeeds exactly when every entry is readable and every
/// path-matching file entry is decodable, and then the result is exactly the
/// eligible names, in archive order.
#[verifier::loop_isolation(false)]
pub fn valid_texture_names(archive: &mut PackSource) -> (r: Result<Vec<String>, ScanError>)
    ensures
        source_unchanged(*old(archive), *final(archive)),
        r is Ok <==> scan_ok(zip_entries(*old(archive)), readable_entries(*old(archive))),
        r matches Ok(v) ==> v.deep_view() == eligible_names(zip_entries(*old(archive))),
{
    let ghost entries = zip_entries(*old(archive));
    let ghost readable = readable_entries(*old(archive));
    let n = archive_len(archive);
    let mut names: Vec<String> = Vec::new();
    let mut i: usize = 0;
    while i < n
        invariant
            source_unchanged(*old(archive), *archive),
            i <= n,
            names.deep_view() == eligible_names(entries.take(i as int)),
            forall|t: int|
                0 <= t < i ==> readable.contains(t) && ((#[trigger] entries[t]).1
                    && spec_path_filter(entries[t].0) ==> png_header(entries[t].2) is Some),
        decreases n - i,
    {
        let ghost names_before = names.deep_view();
        match entry_at(archive, i) {
            Ok((name, is_file, bytes)) => {
                if is_file && path_filter(name.as_str()) {
                    match check_texture(&bytes) {
                        Ok(true) => {
                            names.push(name);
                            proof {
                                assert(names.deep_view() =~= names_before.push(name@));
                            }
                        },
                        Ok(false) => {
                        },
                        Err(e) => {
                            proof {
                                assert(png_header(entries[i as int].2) is None);
                                assert(!scan_ok(entries, readable));
                            }
                            return Err(ScanError::Decode(e));
                        },
                    }
                }
            },
            Err(e) => {
                proof {
                    assert(!readable.contains(i as int));
                    assert(!scan_ok(entries, readable));
                }
                return Err(ScanError::Archive(e));
            },
        }
        proof {
            assert(entries.take((i + 1) as int).drop_last() =~= entries.take(i as int));
            assert(entries.take((i + 1) as int).last() == entries[i as int]);
        }
        i = i + 1;
    }
    proof {
        assert(entries.take(n as int) =~= entries);
    }
    Ok(names)
}

/// How often `x` occurs in `all`.
pub open spec fn occ(all: Seq<Seq<char>>, x: Seq<char>) -> int
    decreases all.len(),
{
    if all.len() == 0 {
        0
    } else {
        occ(all.drop_last(), x) + (if all.last() == x {
            1int
        } else {
            0int
        })
    }
}

/// The distinct names of `names`, each at its first occurrence, in order.
pub open spec fn dedup(names: Seq<Seq<char>>) -> Seq<Seq<char>>
    decreases names.len(),
{
    if names.len() == 0 {
        Seq::empty()
    } else {
        let prefix = dedup(names.drop_last());
        if prefix.contains(names.last()) {
            prefix
        } else {
            prefix.push(names.last())
        }
    }
}

/// The largest occurrence count in `all` over the candidate names `cands`.
pub open spec fn max_occ(all: Seq<Seq<char>>, cands: Seq<Seq<char>>) -> int
    decreases cands.len(),
{
    if cands.len() == 0 {
        0
    } else {
        let rest = max_occ(all, cands.drop_last());
        let c = occ(all, cands.last());
        if c > rest {
            c
        } else {
            rest
        }
    }
}

/// The maximum occurrence count observed over the distinct names of `all`.
pub open spec fn most_common(all: Seq<Seq<char>>) -> int {
    max_occ(all, dedup(all))
}

/// The candidates whose occurrence count in `all` is exactly `m`, in order.
pub open spec fn names_with_occ(all: Seq<Seq<char>>, cands: Seq<Seq<char>>, m: int) -> Seq<
    Seq<char>,
>
    decreases cands.len(),
{
    if cands.len() == 0 {
        Seq::empty()
    } else {
        let prefix = names_with_occ(all, cands.drop_last(), m);
        if occ(all, cands.last()) == m {
            prefix.push(cands.last())
        } else {
            prefix
        }
    }
}

/// The names the atlas is built from: the distinct names, in first-seen
/// order, whose occurrence count across all sources is the maximum observed.
pub open spec fn selected_names(all: Seq<Seq<char>>) -> Seq<Seq<char>> {
    names_with_occ(all, dedup(all), most_common(all))
}

proof fn lemma_occ_bounds(all: Seq<Seq<char>>, x: Seq<char>)
    ensures
        0 <= occ(all, x) <= all.len(),
    decreases all.len(),
{
    if all.len() > 0 {
        lemma_occ_bounds(all.drop_last(), x);
    }
}

proof fn lemma_contains_split(s: Seq<Seq<char>>, x: Seq<char>)
    requires
        s.len() > 0,
    ensures
        s.contains(x) <==> (s.drop_last().contains(x) || s.last() == x),
{
    if s.drop_last().contains(x) {
        let i = choose|i: int| 0 <= i < s.drop_last().len() && s.drop_last()[i] == x;
        assert(s[i] == x);
    }
    if s.last() == x {
        assert(s[s.len() - 1] == x);
    }
    if s.contains(x) && s.last() != x {
        let i = choose|i: int| 0 <= i < s.len() && s[i] == x;
        assert(s.drop_last()[i] == x);
    }
}

proof fn lemma_occ_contains(s: Seq<Seq<char>>, x: Seq<char>)
    ensures
        s.contains(x) <==> occ(s, x) > 0,
    decreases s.len(),
{
    if s.len() == 0 {
        assert(!s.contains(x));
    } else {
        lemma_occ_contains(s.drop_last(), x);
        lemma_occ_bounds(s.drop_last(), x);
        lemma_contains_split(s, x);
    }
}

proof fn lemma_dedup_contains(s: Seq<Seq<char>>, x: Seq<char>)
    ensures
        dedup(s).contains(x) <==> s.contains(x),
    decreases s.len(),
{
    if s.len() == 0 {
        assert(!dedup(s).contains(x));
        assert(!s.contains(x));
    } else {
        lemma_dedup_contains(s.drop_last(), x);
        lemma_contains_split(s, x);
        let prefix = dedup(s.drop_last());
        if !prefix.contains(s.last()) {
            assert(prefix.push(s.last()).drop_last() =~= prefix);
            lemma_contains_split(prefix.push(s.last()), x);
        }
    }
}

proof fn lemma_dedup_distinct(s: Seq<Seq<char>>)
    ensures
        forall|a: int, b: int| 0 <= a < b < dedup(s).len() ==> dedup(s)[a] != dedup(s)[b],
    decreases s.len(),
{
    if s.len() > 0 {
        lemma_dedup_distinct(s.drop_last());
        let prefix = dedup(s.drop_last());
        if !prefix.contains(s.last()) {
            let d = prefix.push(s.last());
            assert forall|a: int, b: int| 0 <= a < b < d.len() implies d[a] != d[b] by {
                if b == d.len() - 1 {
                    if prefix[a] == s.last() {
                        assert(prefix.contains(s.last()));
                    }
                }
            }
        }
    }
}

proof fn lemma_dedup_len(s: Seq<Seq<char>>)
    ensures
        dedup(s).len() <= s.len(),
    decreases s.len(),
{
    if s.len() > 0 {
        lemma_dedup_len(s.drop_last());
    }
}

proof fn lemma_names_with_occ_len(all: Seq<Seq<char>>, cands: Seq<Seq<char>>, m: int)
    ensures
        names_with_occ(all, cands, m).len() <= cands.len(),
    decreases cands.len(),
{
    if cands.len() > 0 {
        lemma_names_with_occ_len(all, cands.drop_last(), m);
    }
}

proof fn lemma_max_occ_ge(all: Seq<Seq<char>>, cands: Seq<Seq<char>>)
    ensures
        forall|x: Seq<char>| #[trigger] cands.contains(x) ==> occ(all, x) <= max_occ(all, cands),
    decreases cands.len(),
{
    if cands.len() > 0 {
        lemma_max_occ_ge(all, cands.drop_last());
        assert forall|x: Seq<char>| #[trigger] cands.contains(x) implies occ(all, x) <= max_occ(
            all,
            cands,
        ) by {
            lemma_contains_split(cands, x);
        }
    }
}

proof fn lemma_max_occ_achieved(all: Seq<Seq<char>>, cands: Seq<Seq<char>>)
    requires
        cands.len() > 0,
    ensures
        exists|x: Seq<char>| #[trigger] cands.contains(x) && occ(all, x) == max_occ(all, cands),
    decreases cands.len(),
{
    let c = occ(all, cands.last());
    let rest = max_occ(all, cands.drop_last());
    if cands.len() == 1 || c > rest {
        lemma_occ_bounds(all, cands.last());
        assert(cands[cands.len() - 1] == cands.last());
        assert(cands.contains(cands.last()) && occ(all, cands.last()) == max_occ(all, cands));
    } else {
        lemma_max_occ_achieved(all, cands.drop_last());
        let x = choose|x: Seq<char>|
            #[trigger] cands.drop_last().contains(x) && occ(all, x) == max_occ(
                all,
                cands.drop_last(),
            );
        lemma_contains_split(cands, x);
        assert(cands.contains(x) && occ(all, x) == max_occ(all, cands));
    }
}

proof fn lemma_names_with_occ_membership(all: Seq<Seq<char>>, cands: Seq<Seq<char>>, m: int)
    ensures
        forall|x: Seq<char>|
            #![trigger names_with_occ(all, cands, m).contains(x)]
            #![trigger cands.contains(x)]
            names_with_occ(all, cands, m).contains(x) <==> (cands.contains(x) && occ(all, x) == m),
    decreases cands.len(),
{
    if cands.len() == 0 {
        assert(forall|x: Seq<char>| !names_with_occ(all, cands, m).contains(x));
        assert(forall|x: Seq<char>| !cands.contains(x));
    } else {
        lemma_names_with_occ_membership(all, cands.drop_last(), m);
        let prefix = names_with_occ(all, cands.drop_last(), m);
        assert forall|x: Seq<char>|
            names_with_occ(all, cands, m).contains(x) <==> (cands.contains(x) && occ(all, x)
                == m) by {
            lemma_contains_split(cands, x);
            if occ(all, cands.last()) == m {
                assert(prefix.push(cands.last()).drop_last() =~= prefix);
                lemma_contains_split(prefix.push(cands.last()), x);
            }
        }
    }
}

fn find_name(uniq: &Vec<String>, name: &String) -> (r: Option<usize>)
    ensures
        r matches Some(j) ==> j < uniq@.len() && uniq.deep_view()[j as int] == name@,
        r is None ==> forall|j: int| 0 <= j < uniq@.len() ==> uniq.deep_view()[j] != name@,
{
    let mut j: usize = 0;
    while j < uniq.len()
        invariant
            j <= uniq@.len(),
            forall|k: int| 0 <= k < j ==> uniq.deep_view()[k] != name@,
        decreases uniq@.len() - j,
    {
        if uniq[j] == *name {
            proof {
                assert(uniq.deep_view()[j as int] == uniq@[j as int]@);
            }
            return Some(j);
        }
        proof {
            assert(uniq.deep_view()[j as int] == uniq@[j as int]@);
        }
        j = j + 1;
    }
    None
}

/// Keeps, of the given names, exactly those whose occurrence count equals the
/// maximum observed count, one copy each, in first-seen order. Fails
/// precisely when there are no names at all.
#[verifier::loop_isolation(false)]
pub fn select_most_common(names: &Vec<String>) -> (r: Result<Vec<String>, EmptyDatasetError>)
    ensures
        r is Ok <==> names@.len() > 0,
        r matches Ok(v) ==> v.deep_view() == selected_names(names.deep_view()),
{
    let ghost all = names.deep_view();
    if names.len() == 0 {
        return Err(EmptyDatasetError);
    }
    let mut uniq: Vec<String> = Vec::new();
    let mut counts: Vec<u64> = Vec::new();
    let mut i: usize = 0;
    while i < names.len()
        invariant
            i <= names@.len(),
            counts@.len() == uniq@.len(),
            uniq.deep_view() == dedup(all.take(i as int)),
            forall|k: int|
                0 <= k < uniq@.len() ==> counts@[k] == occ(
                    all.take(i as int),
                    #[trigger] uniq.deep_view()[k],
                ),
        decreases names@.len() - i,
    {
        let ghost pre = all.take(i as int);
        let ghost cur = all.take((i + 1) as int);
        proof {
            assert(cur.drop_last() =~= pre);
            assert(cur.last() == all[i as int]);
            assert(all[i as int] == names@[i as int]@);
            lemma_dedup_distinct(pre);
        }
        match find_name(&uniq, &names[i]) {
            Some(j) => {
                let ghost ud = uniq.deep_view();
                let ghost counts0 = counts@;
                proof {
                    assert(dedup(pre)[j as int] == cur.last());
                    assert(dedup(pre).contains(cur.last()));
                    assert(dedup(cur) == dedup(pre));
                    lemma_occ_bounds(pre, ud[j as int]);
                }
                let c = counts[j];
                counts[j] = c + 1;
                proof {
                    assert(counts@ == counts0.update(j as int, (c + 1) as u64));
                    assert forall|k: int| 0 <= k < uniq@.len() implies counts@[k] == occ(
                        cur,
                        #[trigger] uniq.deep_view()[k],
                    ) by {
                        let x = ud[k];
                        assert(uniq.deep_view()[k] == x);
                        assert(counts0[k] == occ(pre, x));
                        assert(occ(cur, x) == occ(pre, x) + (if cur.last() == x {
                            1int
                        } else {
                            0int
                        }));
                        if k != j {
                            assert(dedup(pre)[k] == ud[k]);
                            assert(dedup(pre)[j as int] == ud[j as int]);
                            assert(dedup(pre)[k] != dedup(pre)[j as int]);
                            assert(counts@[k] == counts0[k]);
                            assert(counts@[k] == occ(cur, x));
                        } else {
                            assert(cur.last() == x);
                            assert(counts@[k] == c + 1);
                            assert(counts@[k] == occ(cur, x));
                        }
                    }
                }
            },
            None => {
                let ghost uniq_pre = uniq.deep_view();
                let ghost counts0 = counts@;
                proof {
                    assert(!dedup(pre).contains(cur.last()));
                    assert forall|k: int| 0 <= k < uniq_pre.len() implies counts0[k] == occ(
                        pre,
                        #[trigger] uniq_pre[k],
                    ) by {
                        assert(uniq.deep_view()[k] == uniq_pre[k]);
                    }
                    lemma_dedup_contains(pre, cur.last());
                    lemma_occ_contains(pre, cur.last());
                    lemma_occ_bounds(pre, cur.last());
                }
                uniq.push(names[i].clone());
                counts.push(1);
                proof {
                    assert(uniq.deep_view() =~= uniq_pre.push(cur.last()));
                    assert(counts@ == counts0.push(1u64));
                    assert(dedup(cur) == dedup(pre).push(cur.last()));
                    assert forall|k: int| 0 <= k < uniq@.len() implies counts@[k] == occ(
                        cur,
                        #[trigger] uniq.deep_view()[k],
                    ) by {
                        let x = uniq.deep_view()[k];
                        assert(x == uniq_pre.push(cur.last())[k]);
                        assert(occ(cur, x) == occ(pre, x) + (if cur.last() == x {
                            1int
                        } else {
                            0int
                        }));
                        if k < uniq_pre.len() as int {
                            assert(x == uniq_pre[k]);
                            if uniq_pre[k] == cur.last() {
                                assert(dedup(pre)[k] == cur.last());
                                assert(dedup(pre).contains(cur.last()));
                            }
                            assert(counts@[k] == counts0[k]);
                        } else {
                            assert(x == cur.last());
                            assert(occ(pre, x) == 0);
                            assert(counts@[k] == 1);
                        }
                    }
                }
            },
        }
        i = i + 1;
    }
    proof {
        assert(all.take(names@.len() as int) =~= all);
    }
    let ghost duniq = uniq.deep_view();
    let mut m: u64 = 0;
    let mut j: usize = 0;
    while j < counts.len()
        invariant
            j <= counts@.len(),
            counts@.len() == uniq@.len(),
            uniq.deep_view() == duniq,
            duniq == dedup(all),
            forall|k: int|
                0 <= k < uniq@.len() ==> counts@[k] == occ(all, #[trigger] uniq.deep_view()[k]),
            m == max_occ(all, duniq.take(j as int)),
        decreases counts@.len() - j,
    {
        proof {
            assert(duniq.take((j + 1) as int).drop_last() =~= duniq.take(j as int));
            assert(duniq.take((j + 1) as int).last() == duniq[j as int]);
        }
        if counts[j] > m {
            m = counts[j];
        }
        j = j + 1;
    }
    proof {
        assert(duniq.take(duniq.len() as int) =~= duniq);
    }
    let mut result: Vec<String> = Vec::new();
    let mut k: usize = 0;
    while k < uniq.len()
        invariant
            k <= uniq@.len(),
            counts@.len() == uniq@.len(),
            uniq.deep_view() == duniq,
            duniq == dedup(all),
            forall|t: int|
                0 <= t < uniq@.len() ==> counts@[t] == occ(all, #[trigger] uniq.deep_view()[t]),
            m == most_common(all),
            result.deep_view() == names_with_occ(all, duniq.take(k as int), m as int),
        decreases uniq@.len() - k,
    {
        let ghost rpre = result.deep_view();
        proof {
            assert(duniq.take((k + 1) as int).drop_last() =~= duniq.take(k as int));
            assert(duniq.take((k + 1) as int).last() == duniq[k as int]);
        }
        if counts[k] == m {
            result.push(uniq[k].clone());
            proof {
                assert(result.deep_view() =~= rpre.push(duniq[k as int]));
            }
        }
        k = k + 1;
    }
    proof {
        assert(duniq.take(duniq.len() as int) =~= duniq);
    }
    Ok(result)
}

/// One copy of each name, at its first occurrence, in order.
#[verifier::loop_isolation(false)]
pub fn dedup_names(names: &Vec<String>) -> (r: Vec<String>)
    ensures
        r.deep_view() == dedup(names.deep_view()),
{
    let ghost all = names.deep_view();
    let mut out: Vec<String> = Vec::new();
    let mut i: usize = 0;
    while i < names.len()
        invariant
            i <= names@.len(),
            out.deep_view() == dedup(all.take(i as int)),
        decreases names@.len() - i,
    {
        let ghost pre = all.take(i as int);
        let ghost cur = all.take((i + 1) as int);
        proof {
            assert(cur.drop_last() =~= pre);
            assert(cur.last() == all[i as int]);
            assert(all[i as int] == names@[i as int]@);
        }
        match find_name(&out, &names[i]) {
            Some(j) => {
                proof {
                    assert(dedup(pre)[j as int] == cur.last());
                    assert(dedup(pre).contains(cur.last()));
                    assert(dedup(cur) == dedup(pre));
                }
            },
            None => {
                let ghost out_pre = out.deep_view();
                proof {
                    assert(!dedup(pre).contains(cur.last()));
                }
                out.push(names[i].clone());
                proof {
                    assert(out.deep_view() =~= out_pre.push(cur.last()));
                    assert(dedup(cur) == dedup(pre).push(cur.last()));
                }
            },
        }
        i = i + 1;
    }
    proof {
        assert(all.take(names@.len() as int) =~= all);
    }
    out
}

/// The candidate names a sequence of per-archive scans contributes: each
/// archive's eligible names as a set, in first-seen order, so that one
/// archive counts a name at most once however often it carries it.
pub open spec fn contributed_names(lists: Seq<Seq<Seq<char>>>) -> Seq<Seq<char>>
    decreases lists.len(),
{
    if lists.len() == 0 {
        Seq::empty()
    } else {
        contributed_names(lists.drop_last()) + dedup(lists.last())
    }
}

/// Builds the atlas from the per-archive eligible-name lists, in the order
/// the archives were scanned: a name's count is the number of archives it is
/// eligible in, exactly the names at the maximum observed count are kept, one
/// square each, and they are laid out on the grid in first-seen order. Fails
/// precisely when no archive contributed any name.
#[verifier::loop_isolation(false)]
pub fn build_atlas(name_lists: Vec<Vec<String>>) -> (r: Result<Atlas, EmptyDatasetError>)
    requires
        contributed_names(name_lists.deep_view()).len() <= u32::MAX,
    ensures
        r is Ok <==> contributed_names(name_lists.deep_view()).len() > 0,
        r matches Ok(at) ==> {
            let sel = selected_names(contributed_names(name_lists.deep_view()));
            &&& at@.wf()
            &&& at@.squares.len() == sel.len()
            &&& is_grid_side(sel.len() as int, at@.side_length as int)
            &&& forall|i: int|
                0 <= i < sel.len() ==> (#[trigger] at@.squares[i]).name == sel[i]
                    && at@.squares[i].x == grid_x(i, at@.side_length as int) && at@.squares[i].y
                    == grid_y(i, at@.side_length as int)
        },
{
    let ghost lists = name_lists.deep_view();
    let mut all: Vec<String> = Vec::new();
    let mut i: usize = 0;
    while i < name_lists.len()
        invariant
            i <= name_lists@.len(),
            all.deep_view() == contributed_names(lists.take(i as int)),
        decreases name_lists@.len() - i,
    {
        proof {
            assert(lists.take((i + 1) as int).drop_last() =~= lists.take(i as int));
            assert(lists.take((i + 1) as int).last() == lists[i as int]);
            assert(lists[i as int] == name_lists@[i as int].deep_view());
        }
        let mut deduped = dedup_names(&name_lists[i]);
        let ghost all_pre = all.deep_view();
        all.append(&mut deduped);
        proof {
            assert(all.deep_view() =~= all_pre + dedup(lists[i as int]));
        }
        i = i + 1;
    }
    proof {
        assert(lists.take(name_lists@.len() as int) =~= lists);
    }
    match select_most_common(&all) {
        Ok(sel) => {
            proof {
                lemma_dedup_len(all.deep_view());
                lemma_names_with_occ_len(
                    all.deep_view(),
                    dedup(all.deep_view()),
                    most_common(all.deep_view()),
                );
            }
            Ok(Atlas::new(sel))
        },
        Err(e) => Err(e),
    }
}

/// Multi-source eligibility selection keeps exactly the names at the maximum
/// observed occurrence count: every selected name occurs that often, no name
/// occurs more often, every name at the maximum is selected, and whenever any
/// name was seen at all, some name reaches the maximum.
pub proof fn lemma_selected_names_max(all: Seq<Seq<char>>)
    ensures
        forall|x: Seq<char>|
            #[trigger] selected_names(all).contains(x) ==> all.contains(x) && occ(all, x)
                == most_common(all),
        forall|x: Seq<char>| #[trigger] all.contains(x) ==> occ(all, x) <= most_common(all),
        forall|x: Seq<char>|
            all.contains(x) && occ(all, x) == most_common(all)
                ==> #[trigger] selected_names(all).contains(x),
        all.len() > 0 ==> exists|x: Seq<char>|
            #[trigger] all.contains(x) && occ(all, x) == most_common(all),
{
    lemma_names_with_occ_membership(all, dedup(all), most_common(all));
    lemma_max_occ_ge(all, dedup(all));
    assert forall|x: Seq<char>| #[trigger] dedup(all).contains(x) <==> all.contains(x) by {
        lemma_dedup_contains(all, x);
    }
    assert forall|x: Seq<char>| #[trigger] all.contains(x) implies occ(all, x) <= most_common(
        all,
    ) by {
        lemma_dedup_contains(all, x);
        assert(dedup(all).contains(x));
    }
    if all.len() > 0 {
        assert(all[all.len() - 1] == all.last());
        assert(all.contains(all.last()));
        assert(dedup(all).contains(all.last()));
        let i = choose|i: int| 0 <= i < dedup(all).len() && dedup(all)[i] == all.last();
        lemma_max_occ_achieved(all, dedup(all));
        let x = choose|x: Seq<char>|
            #[trigger] dedup(all).contains(x) && occ(all, x) == max_occ(all, dedup(all));
        assert(all.contains(x) && occ(all, x) == most_common(all));
    }
}

} // verus!
