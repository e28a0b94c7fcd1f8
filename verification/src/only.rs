//! Partial restore: which manifest entries a set of `--only` paths selects.
//!
//! A selector path matches a manifest key that equals it, or that continues
//! it directly under a `/`.  Selector paths are normalized first: whitespace
//! trimmed, backslashes turned into slashes, leading `./` runs, leading
//! slashes and trailing slashes dropped.  A selector that matches nothing is
//! an error, so a typo never silently restores nothing.

use vstd::prelude::*;
use vstd::seq_lib::group_to_multiset_ensures;
use crate::metadata::BackupObject;
use crate::msgpack::{bytes_eq, clone_bytes};
use crate::backup::{bytes_is_prefix, slashes_of};

verus! {

/// How a restore run chooses what to restore.
pub enum OnlyRequest {
    /// Everything in the manifest.
    All,
    /// The entries the given normalized paths select.
    Paths(Vec<Vec<u8>>),
    /// The user picks interactively; the choice arrives as paths later.
    Interactive,
}

/// Why a selection failed.
#[derive(Clone, Debug, PartialEq, Eq)]
pub enum OnlyError {
    /// A selector path was empty, or empty once normalized.
    InvalidPath,
    /// No selector was given at all.
    NoPathsSelected,
    /// The carried selector path matched no manifest entry.
    NoFilesForPath(Vec<u8>),
}

/// ASCII whitespace, as trimmed from a selector's ends.
pub open spec fn is_ws(b: u8) -> bool {
    b == 0x20 || b == 0x09 || b == 0x0a || b == 0x0d
}

pub open spec fn trim_front(s: Seq<u8>) -> Seq<u8>
    decreases s.len(),
{
    if s.len() > 0 && is_ws(s[0]) {
        trim_front(s.skip(1))
    } else {
        s
    }
}

pub open spec fn trim_back(s: Seq<u8>) -> Seq<u8>
    decreases s.len(),
{
    if s.len() > 0 && is_ws(s.last()) {
        trim_back(s.drop_last())
    } else {
        s
    }
}

pub open spec fn strip_dot_slash(s: Seq<u8>) -> Seq<u8>
    decreases s.len(),
{
    if s.len() >= 2 && s[0] == 0x2e && s[1] == 0x2f {
        strip_dot_slash(s.skip(2))
    } else {
        s
    }
}

pub open spec fn strip_leading_slashes(s: Seq<u8>) -> Seq<u8>
    decreases s.len(),
{
    if s.len() > 0 && s[0] == 0x2f {
        strip_leading_slashes(s.skip(1))
    } else {
        s
    }
}

pub open spec fn strip_trailing_slashes(s: Seq<u8>) -> Seq<u8>
    decreases s.len(),
{
    if s.len() > 0 && s.last() == 0x2f {
        strip_trailing_slashes(s.drop_last())
    } else {
        s
    }
}

/// The normalized form of a selector path.
pub open spec fn normalize_only_spec(v: Seq<u8>) -> Seq<u8> {
    strip_trailing_slashes(
        strip_leading_slashes(strip_dot_slash(slashes_of(trim_back(trim_front(v))))),
    )
}

fn trim_front_exec(s: &[u8]) -> (out: &[u8])
    ensures
        out@ == trim_front(s@),
    decreases s@.len(),
{
    if s.len() > 0 && (s[0] == 0x20 || s[0] == 0x09 || s[0] == 0x0a || s[0] == 0x0d) {
        let rest = vstd::slice::slice_subrange(s, 1, s.len());
        proof {
            assert(rest@ =~= s@.skip(1));
        }
        trim_front_exec(rest)
    } else {
        s
    }
}

fn trim_back_exec(s: &[u8]) -> (out: &[u8])
    ensures
        out@ == trim_back(s@),
    decreases s@.len(),
{
    if s.len() > 0 {
        let b = s[s.len() - 1];
        if b == 0x20 || b == 0x09 || b == 0x0a || b == 0x0d {
            let rest = vstd::slice::slice_subrange(s, 0, s.len() - 1);
            proof {
                assert(rest@ =~= s@.drop_last());
            }
            return trim_back_exec(rest);
        }
    }
    s
}

fn strip_dot_slash_exec(s: &[u8]) -> (out: &[u8])
    ensures
        out@ == strip_dot_slash(s@),
    decreases s@.len(),
{
    if s.len() >= 2 && s[0] == 0x2e && s[1] == 0x2f {
        let rest = vstd::slice::slice_subrange(s, 2, s.len());
        proof {
            assert(rest@ =~= s@.skip(2));
        }
        strip_dot_slash_exec(rest)
    } else {
        s
    }
}

fn strip_leading_slashes_exec(s: &[u8]) -> (out: &[u8])
    ensures
        out@ == strip_leading_slashes(s@),
    decreases s@.len(),
{
    if s.len() > 0 && s[0] == 0x2f {
        let rest = vstd::slice::slice_subrange(s, 1, s.len());
        proof {
            assert(rest@ =~= s@.skip(1));
        }
        strip_leading_slashes_exec(rest)
    } else {
        s
    }
}

fn strip_trailing_slashes_exec(s: &[u8]) -> (out: &[u8])
    ensures
        out@ == strip_trailing_slashes(s@),
    decreases s@.len(),
{
    if s.len() > 0 && s[s.len() - 1] == 0x2f {
        let rest = vstd::slice::slice_subrange(s, 0, s.len() - 1);
        proof {
            assert(rest@ =~= s@.drop_last());
        }
        strip_trailing_slashes_exec(rest)
    } else {
        s
    }
}

/// Normalizes one selector path; a path empty before or after
/// normalization is invalid.
pub fn normalize_only_path(value: &[u8]) -> (out: Result<Vec<u8>, OnlyError>)
    ensures
        out matches Ok(v) ==> v@ == normalize_only_spec(value@) && v@.len() > 0,
        out is Err <==> trim_back(trim_front(value@)).len() == 0 || normalize_only_spec(
            value@,
        ).len() == 0,
{
    let trimmed = trim_back_exec(trim_front_exec(value));
    if trimmed.len() == 0 {
        return Err(OnlyError::InvalidPath);
    }
    let mut slashed: Vec<u8> = Vec::new();
    let mut i: usize = 0;
    while i < trimmed.len()
        invariant
            i <= trimmed@.len(),
            slashed@ =~= slashes_of(trimmed@.take(i as int)),
        decreases trimmed@.len() - i,
    {
        let b = trimmed[i];
        if b == 0x5c {
            slashed.push(0x2f);
        } else {
            slashed.push(b);
        }
        proof {
            assert(slashed@ =~= slashes_of(trimmed@.take(i + 1)));
        }
        i = i + 1;
    }
    proof {
        assert(trimmed@.take(trimmed@.len() as int) =~= trimmed@);
    }
    let stripped = strip_trailing_slashes_exec(
        strip_leading_slashes_exec(strip_dot_slash_exec(slashed.as_slice())),
    );
    if stripped.len() == 0 {
        return Err(OnlyError::InvalidPath);
    }
    Ok(vstd::slice::slice_to_vec(stripped))
}

/// Whether the selector `o` selects the manifest key `k`: the key equals the
/// selector, or continues it directly under a `/`.
pub open spec fn selects(o: Seq<u8>, k: Seq<u8>) -> bool {
    k == o || (o + seq![0x2fu8]).is_prefix_of(k)
}

/// Whether any selector in the list selects `k`.
pub open spec fn selected_by_any(only: Seq<Vec<u8>>, k: Seq<u8>) -> bool {
    exists|i: int| 0 <= i < only.len() && selects((#[trigger] only[i])@, k)
}

/// Whether one selector selects one key.
pub fn selects_exec(o: &[u8], k: &[u8]) -> (out: bool)
    ensures
        out == selects(o@, k@),
{
    if bytes_eq(o, k) {
        return true;
    }
    let prefixed = bytes_is_prefix(k, o) && k.len() > o.len() && k[o.len()] == 0x2f;
    proof {
        if prefixed {
            assert((o@ + seq![0x2fu8]).is_prefix_of(k@)) by {
                assert(k@.subrange(0, o@.len() as int + 1) =~= o@ + seq![0x2fu8]);
            }
        }
        if (o@ + seq![0x2fu8]).is_prefix_of(k@) {
            assert(k@.subrange(0, o@.len() as int) =~= (o@ + seq![0x2fu8]).take(o@.len() as int));
            assert((o@ + seq![0x2fu8]).take(o@.len() as int) =~= o@);
            assert(k@[o@.len() as int] == (o@ + seq![0x2fu8])[o@.len() as int]);
        }
    }
    prefixed
}

/// Whether any selector in the list selects `k`.
fn selected_by_any_exec(only: &Vec<Vec<u8>>, k: &[u8]) -> (out: bool)
    ensures
        out == selected_by_any(only@, k@),
{
    let n = only.len();
    let mut i: usize = 0;
    while i < n
        invariant
            i <= n,
            n == only@.len(),
            forall|j: int| 0 <= j < i ==> !selects((#[trigger] only@[j])@, k@),
        decreases n - i,
    {
        if selects_exec(only[i].as_slice(), k) {
            return true;
        }
        i = i + 1;
    }
    false
}

/// The manifest entries a selector list selects, in manifest order.
pub open spec fn matching_entries(tree: Seq<(Vec<u8>, BackupObject)>, only: Seq<Vec<u8>>) -> Seq<
    (Vec<u8>, BackupObject),
>
    decreases tree.len(),
{
    if tree.len() == 0 {
        Seq::empty()
    } else {
        (if selected_by_any(only, tree[0].0@) {
            seq![tree[0]]
        } else {
            Seq::empty()
        }) + matching_entries(tree.skip(1), only)
    }
}

/// Byte-wise lexicographic order.
pub open spec fn lex_le(a: Seq<u8>, b: Seq<u8>) -> bool
    decreases a.len(),
{
    if a.len() == 0 {
        true
    } else if b.len() == 0 {
        false
    } else if a[0] < b[0] {
        true
    } else if a[0] > b[0] {
        false
    } else {
        lex_le(a.skip(1), b.skip(1))
    }
}

pub proof fn lemma_lex_le_total(a: Seq<u8>, b: Seq<u8>)
    ensures
        lex_le(a, b) || lex_le(b, a),
    decreases a.len(),
{
    if a.len() > 0 && b.len() > 0 && a[0] == b[0] {
        lemma_lex_le_total(a.skip(1), b.skip(1));
    }
}

pub proof fn lemma_lex_le_trans(a: Seq<u8>, b: Seq<u8>, c: Seq<u8>)
    requires
        lex_le(a, b),
        lex_le(b, c),
    ensures
        lex_le(a, c),
    decreases a.len(),
{
    if a.len() > 0 && b.len() > 0 && c.len() > 0 && a[0] == b[0] && b[0] == c[0] {
        lemma_lex_le_trans(a.skip(1), b.skip(1), c.skip(1));
    }
}

/// Whether `a` is at most `b` in byte-wise lexicographic order.
pub fn lex_le_exec(a: &[u8], b: &[u8]) -> (out: bool)
    ensures
        out == lex_le(a@, b@),
    decreases a@.len(),
{
    if a.len() == 0 {
        true
    } else if b.len() == 0 {
        false
    } else if a[0] < b[0] {
        true
    } else if a[0] > b[0] {
        false
    } else {
        let ra = vstd::slice::slice_subrange(a, 1, a.len());
        let rb = vstd::slice::slice_subrange(b, 1, b.len());
        proof {
            assert(ra@ =~= a@.skip(1));
            assert(rb@ =~= b@.skip(1));
        }
        lex_le_exec(ra, rb)
    }
}

/// Copies one manifest entry, field by field.
fn clone_entry(e: &(Vec<u8>, BackupObject)) -> (out: (Vec<u8>, BackupObject))
    ensures
        entry_view(out) == entry_view(*e),
{
    let mut chunks: Vec<Vec<u8>> = Vec::new();
    let n = e.1.chunks.len();
    let mut i: usize = 0;
    while i < n
        invariant
            i <= n,
            n == e.1.chunks@.len(),
            chunks@.len() == i,
            forall|j: int| 0 <= j < i ==> (#[trigger] chunks@[j])@ == e.1.chunks@[j]@,
        decreases n - i,
    {
        chunks.push(clone_bytes(&e.1.chunks[i]));
        i = i + 1;
    }
    let out = (
        clone_bytes(&e.0),
        BackupObject {
            hash: clone_bytes(&e.1.hash),
            size: e.1.size,
            content_type: clone_bytes(&e.1.content_type),
            permissions: e.1.permissions,
            chunks,
        },
    );
    proof {
        assert(out.1.chunks@.map_values(|v: Vec<u8>| v@) =~= e.1.chunks@.map_values(
            |v: Vec<u8>| v@,
        ));
    }
    out
}

/// The value content of a manifest entry: everything but the allocation.
pub open spec fn entry_view(e: (Vec<u8>, BackupObject)) -> (
    Seq<u8>,
    (Seq<u8>, u64, Seq<u8>, u32, Seq<Seq<u8>>),
) {
    (
        e.0@,
        (
            e.1.hash@,
            e.1.size,
            e.1.content_type@,
            e.1.permissions,
            e.1.chunks@.map_values(|v: Vec<u8>| v@),
        ),
    )
}

/// Whether the entries sit in lexicographic key order.
pub open spec fn entries_sorted(s: Seq<(Vec<u8>, BackupObject)>) -> bool {
    forall|i: int| 0 <= i < s.len() - 1 ==> lex_le((#[trigger] s[i]).0@, s[i + 1].0@)
}

/// The manifest entries the selector paths pick out, sorted by path.
/// Every selector must select something; one that selects nothing is
/// reported, so a mistyped path never silently restores nothing.
pub fn filter_only_paths(tree: &Vec<(Vec<u8>, BackupObject)>, only: &Vec<Vec<u8>>) -> (out: Result<
    Vec<(Vec<u8>, BackupObject)>,
    OnlyError,
>)
    ensures
        only@.len() == 0 ==> out == Err::<Vec<(Vec<u8>, BackupObject)>, OnlyError>(
            OnlyError::NoPathsSelected,
        ),
        out matches Ok(list) ==> entries_sorted(list@),
        out matches Ok(list) ==> list@.map_values(|e: (Vec<u8>, BackupObject)| entry_view(e))
            .to_multiset() == matching_entries(tree@, only@).map_values(
            |e: (Vec<u8>, BackupObject)| entry_view(e),
        ).to_multiset(),
        out matches Ok(list) ==> forall|i: int|
            0 <= i < only@.len() ==> exists|j: int|
                0 <= j < tree@.len() && selects((#[trigger] only@[i])@, (#[trigger] tree@[j]).0@),
        out matches Err(e) ==> (e == OnlyError::NoPathsSelected && only@.len() == 0) || (e matches OnlyError::NoFilesForPath(p)
            && exists|i: int|
            0 <= i < only@.len() && p@ == (#[trigger] only@[i])@ && (forall|j: int|
                0 <= j < tree@.len() ==> !selects(only@[i]@, (#[trigger] tree@[j]).0@))),
        out is Err ==> (only@.len() == 0 || exists|i: int|
            0 <= i < only@.len() && (forall|j: int|
                0 <= j < tree@.len() ==> !selects((#[trigger] only@[i])@, (#[trigger] tree@[j]).0@))),
{
    if only.len() == 0 {
        return Err(OnlyError::NoPathsSelected);
    }
    let n_only = only.len();
    let mut oi: usize = 0;
    while oi < n_only
        invariant
            oi <= n_only,
            n_only == only@.len(),
            forall|i: int|
                0 <= i < oi ==> exists|j: int|
                    0 <= j < tree@.len() && selects(
                        (#[trigger] only@[i])@,
                        (#[trigger] tree@[j]).0@,
                    ),
        decreases n_only - oi,
    {
        let mut found = false;
        let n_tree = tree.len();
        let mut tj: usize = 0;
        while tj < n_tree && !found
            invariant
                oi < n_only,
                n_only == only@.len(),
                tj <= n_tree,
                n_tree == tree@.len(),
                found ==> exists|j: int|
                    0 <= j < tree@.len() && selects(
                        only@[oi as int]@,
                        (#[trigger] tree@[j]).0@,
                    ),
                !found ==> forall|j: int|
                    0 <= j < tj ==> !selects(only@[oi as int]@, (#[trigger] tree@[j]).0@),
            decreases n_tree - tj,
        {
            if selects_exec(only[oi].as_slice(), tree[tj].0.as_slice()) {
                found = true;
            }
            tj = tj + 1;
        }
        if !found {
            return Err(OnlyError::NoFilesForPath(clone_bytes(&only[oi])));
        }
        oi = oi + 1;
    }
    let mut picked: Vec<(Vec<u8>, BackupObject)> = Vec::new();
    let n_tree = tree.len();
    let mut tj: usize = 0;
    proof {
        assert(tree@.skip(0) =~= tree@);
        broadcast use group_to_multiset_ensures;

    }
    while tj < n_tree
        invariant
            tj <= n_tree,
            n_tree == tree@.len(),
            matching_entries(tree@, only@).map_values(
                |e: (Vec<u8>, BackupObject)| entry_view(e),
            ).to_multiset() == picked@.map_values(
                |e: (Vec<u8>, BackupObject)| entry_view(e),
            ).to_multiset().add(
                matching_entries(tree@.skip(tj as int), only@).map_values(
                    |e: (Vec<u8>, BackupObject)| entry_view(e),
                ).to_multiset(),
            ),
        decreases n_tree - tj,
    {
        proof {
            broadcast use group_to_multiset_ensures;

            assert(tree@.skip(tj as int)[0] == tree@[tj as int]);
            assert(tree@.skip(tj as int).skip(1) =~= tree@.skip(tj + 1));
        }
        let ghost picked_views_before = picked@.map_values(
            |e: (Vec<u8>, BackupObject)| entry_view(e),
        );
        if selected_by_any_exec(only, tree[tj].0.as_slice()) {
            let entry = clone_entry(&tree[tj]);
            picked.push(entry);
            proof {
                assert(picked@.map_values(|e: (Vec<u8>, BackupObject)| entry_view(e))
                    =~= picked_views_before.push(entry_view(tree@[tj as int])));
                let ms = matching_entries(tree@.skip(tj as int), only@).map_values(
                    |e: (Vec<u8>, BackupObject)| entry_view(e),
                );
                assert(ms =~= seq![entry_view(tree@[tj as int])] + matching_entries(
                    tree@.skip(tj + 1),
                    only@,
                ).map_values(|e: (Vec<u8>, BackupObject)| entry_view(e)));
                assert(ms =~= matching_entries(tree@.skip(tj + 1), only@).map_values(
                    |e: (Vec<u8>, BackupObject)| entry_view(e),
                ).insert(0, entry_view(tree@[tj as int])));
                lemma_multiset_insert_front(
                    matching_entries(tree@.skip(tj + 1), only@).map_values(
                        |e: (Vec<u8>, BackupObject)| entry_view(e),
                    ),
                    entry_view(tree@[tj as int]),
                );
            }
        } else {
            proof {
                assert(matching_entries(tree@.skip(tj as int), only@).map_values(
                    |e: (Vec<u8>, BackupObject)| entry_view(e),
                ) =~= matching_entries(tree@.skip(tj + 1), only@).map_values(
                    |e: (Vec<u8>, BackupObject)| entry_view(e),
                ));
            }
        }
        tj = tj + 1;
    }
    proof {
        broadcast use group_to_multiset_ensures;

        assert(tree@.skip(n_tree as int) =~= Seq::<(Vec<u8>, BackupObject)>::empty());
        assert(matching_entries(tree@.skip(n_tree as int), only@).map_values(
            |e: (Vec<u8>, BackupObject)| entry_view(e),
        ) =~= Seq::<(Seq<u8>, (Seq<u8>, u64, Seq<u8>, u32, Seq<Seq<u8>>))>::empty());
    }
    Ok(sort_entries(picked))
}

proof fn lemma_multiset_insert_front<T>(s: Seq<T>, x: T)
    ensures
        s.insert(0, x).to_multiset() =~= s.to_multiset().insert(x),
{
    broadcast use group_to_multiset_ensures;

    assert(s.insert(0, x).remove(0) =~= s);
    assert(s.insert(0, x).to_multiset().remove(x) =~= s.to_multiset());
    assert(s.insert(0, x)[0] == x);
    assert(s.insert(0, x).to_multiset().contains(x));
    assert(s.insert(0, x).to_multiset() =~= s.to_multiset().insert(x));
}

/// Sorts manifest entries by path, keeping exactly the given entries.
fn sort_entries(input: Vec<(Vec<u8>, BackupObject)>) -> (out: Vec<(Vec<u8>, BackupObject)>)
    ensures
        entries_sorted(out@),
        out@.map_values(|e: (Vec<u8>, BackupObject)| entry_view(e)).to_multiset()
            == input@.map_values(|e: (Vec<u8>, BackupObject)| entry_view(e)).to_multiset(),
{
    let ghost target = input@.map_values(|e: (Vec<u8>, BackupObject)| entry_view(e)).to_multiset();
    let mut rest = input;
    let mut out: Vec<(Vec<u8>, BackupObject)> = Vec::new();
    proof {
        broadcast use group_to_multiset_ensures;

        assert(out@.map_values(|e: (Vec<u8>, BackupObject)| entry_view(e)) =~= Seq::<
            (Seq<u8>, (Seq<u8>, u64, Seq<u8>, u32, Seq<Seq<u8>>)),
        >::empty());
    }
    while rest.len() > 0
        invariant
            target == out@.map_values(|e: (Vec<u8>, BackupObject)| entry_view(e)).to_multiset().add(
                rest@.map_values(|e: (Vec<u8>, BackupObject)| entry_view(e)).to_multiset(),
            ),
            entries_sorted(out@),
            forall|a: int, b: int|
                0 <= a < out@.len() && 0 <= b < rest@.len() ==> lex_le(
                    (#[trigger] out@[a]).0@,
                    (#[trigger] rest@[b]).0@,
                ),
        decreases rest@.len(),
    {
        let mut best: usize = 0;
        let n = rest.len();
        let mut i: usize = 1;
        proof {
            lemma_lex_le_total(rest@[0].0@, rest@[0].0@);
        }
        while i < n
            invariant
                best < i <= n,
                n == rest@.len(),
                forall|j: int| 0 <= j < i ==> lex_le(rest@[best as int].0@, (#[trigger] rest@[j]).0@),
            decreases n - i,
        {
            if !lex_le_exec(rest[best].0.as_slice(), rest[i].0.as_slice()) {
                proof {
                    lemma_lex_le_total(rest@[best as int].0@, rest@[i as int].0@);
                    assert forall|j: int| 0 <= j < i + 1 implies lex_le(
                        rest@[i as int].0@,
                        (#[trigger] rest@[j]).0@,
                    ) by {
                        if j < i {
                            lemma_lex_le_trans(
                                rest@[i as int].0@,
                                rest@[best as int].0@,
                                rest@[j].0@,
                            );
                        } else {
                            lemma_lex_le_total(rest@[i as int].0@, rest@[i as int].0@);
                        }
                    }
                }
                best = i;
            }
            i = i + 1;
        }
        let ghost rest_views = rest@.map_values(|e: (Vec<u8>, BackupObject)| entry_view(e));
        let ghost out_views = out@.map_values(|e: (Vec<u8>, BackupObject)| entry_view(e));
        let picked = rest.remove(best);
        out.push(picked);
        proof {
            broadcast use group_to_multiset_ensures;

            assert(rest@.map_values(|e: (Vec<u8>, BackupObject)| entry_view(e)) =~= rest_views.remove(
                best as int,
            ));
            assert(out@.map_values(|e: (Vec<u8>, BackupObject)| entry_view(e)) =~= out_views.push(
                entry_view(picked),
            ));
            assert(rest_views.remove(best as int).to_multiset() =~= rest_views.to_multiset().remove(
                rest_views[best as int],
            ));
            assert(rest_views[best as int] == entry_view(picked));
            assert(rest_views.to_multiset().contains(rest_views[best as int]));
            assert(out@.map_values(|e: (Vec<u8>, BackupObject)| entry_view(e)).to_multiset()
                =~= out_views.to_multiset().insert(entry_view(picked)));
            assert(out@.map_values(|e: (Vec<u8>, BackupObject)| entry_view(e)).to_multiset().add(
                rest@.map_values(|e: (Vec<u8>, BackupObject)| entry_view(e)).to_multiset(),
            ) =~= target);
        }
    }
    proof {
        broadcast use group_to_multiset_ensures;

        assert(rest@.map_values(|e: (Vec<u8>, BackupObject)| entry_view(e)) =~= Seq::<
            (Seq<u8>, (Seq<u8>, u64, Seq<u8>, u32, Seq<Seq<u8>>)),
        >::empty());
        assert(out@.map_values(|e: (Vec<u8>, BackupObject)| entry_view(e)).to_multiset().add(
            rest@.map_values(|e: (Vec<u8>, BackupObject)| entry_view(e)).to_multiset(),
        ) =~= out@.map_values(|e: (Vec<u8>, BackupObject)| entry_view(e)).to_multiset());
    }
    out
}

} // verus!
