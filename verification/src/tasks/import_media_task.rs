use vstd::prelude::*;
use crate::text::string_views;

verus! {

/// Bytes of a relative path made of the given components, with one separator byte between
/// consecutive components.
pub open spec fn path_bytes(p: Seq<Seq<char>>) -> int
    decreases p.len(),
{
    if p.len() == 0 {
        0
    } else if p.len() == 1 {
        vstd::utf8::encode_utf8(p[0]).len() as int
    } else {
        path_bytes(p.drop_last()) + 1 + vstd::utf8::encode_utf8(p.last()).len()
    }
}

/// The components of a root folder's parent (none for a root without parent).
pub open spec fn parent_components(root: Seq<Seq<char>>) -> Seq<Seq<char>> {
    if root.len() > 0 {
        root.drop_last()
    } else {
        seq![]
    }
}

/// The path of `file` relative to the parent of `root`, when the file lies under it.
pub open spec fn relative_to(file: Seq<Seq<char>>, root: Seq<Seq<char>>) -> Option<Seq<Seq<char>>> {
    let pre = parent_components(root);
    if pre.len() <= file.len() && file.take(pre.len() as int) == pre {
        Some(file.skip(pre.len() as int))
    } else {
        None
    }
}

/// Among the first `n` roots, the one under whose parent the file has the shortest relative
/// path (the first of equally short ones).
pub open spec fn best_root(file: Seq<Seq<char>>, roots: Seq<Seq<Seq<char>>>, n: int) -> Option<int>
    decreases n,
{
    if n <= 0 {
        None
    } else {
        let prev = best_root(file, roots, n - 1);
        match relative_to(file, roots[n - 1]) {
            None => prev,
            Some(rel) => match prev {
                None => Some(n - 1),
                Some(b) => if path_bytes(rel) < path_bytes(relative_to(file, roots[b])->0) {
                    Some(n - 1)
                } else {
                    prev
                },
            },
        }
    }
}

/// Where an imported file goes inside the input folder, as path components: its path
/// relative to the parent of the import root it lies deepest in (so that the root folder's
/// own name is kept), or just its file name (`unknown` without one) when it lies in no root.
pub open spec fn spec_import_relative_path(file: Seq<Seq<char>>, roots: Seq<Seq<Seq<char>>>) -> Seq<Seq<char>> {
    match best_root(file, roots, roots.len() as int) {
        Some(b) => relative_to(file, roots[b])->0,
        None => if file.len() > 0 {
            seq![file.last()]
        } else {
            seq!["unknown"@]
        },
    }
}

/// The texts of a list of paths given as components.
pub open spec fn paths_view(roots: Seq<Vec<String>>) -> Seq<Seq<Seq<char>>> {
    roots.map_values(|r: Vec<String>| string_views(r@))
}

proof fn lemma_best_root_bounds(file: Seq<Seq<char>>, roots: Seq<Seq<Seq<char>>>, n: int)
    requires
        0 <= n <= roots.len(),
    ensures
        best_root(file, roots, n) matches Some(b) ==> 0 <= b < n && relative_to(file, roots[b]) is Some,
    decreases n,
{
    if n > 0 {
        lemma_best_root_bounds(file, roots, n - 1);
    }
}

proof fn lemma_path_bytes_step(p: Seq<Seq<char>>, i: int)
    requires
        0 <= i < p.len(),
    ensures
        path_bytes(p.take(i + 1)) == path_bytes(p.take(i)) + (if i > 0 { 1int } else { 0int }) + vstd::utf8::encode_utf8(p[i]).len(),
{
    assert(p.take(i + 1).drop_last() =~= p.take(i));
    assert(p.take(i + 1).last() == p[i]);
    if i == 0 {
        assert(p.take(1)[0] == p[0]);
        assert(p.take(0).len() == 0);
    }
}

proof fn lemma_path_bytes_prefix(p: Seq<Seq<char>>, i: int)
    requires
        0 <= i <= p.len(),
    ensures
        path_bytes(p.take(i)) <= path_bytes(p),
    decreases p.len(),
{
    if i < p.len() {
        let q = p.drop_last();
        assert(q.take(i) =~= p.take(i));
        lemma_path_bytes_prefix(q, i);
        assert(p.drop_last() == q);
    } else {
        assert(p.take(i) =~= p);
    }
}

proof fn lemma_path_bytes_nonneg(p: Seq<Seq<char>>)
    ensures
        path_bytes(p) >= 0,
    decreases p.len(),
{
    if p.len() > 1 {
        lemma_path_bytes_nonneg(p.drop_last());
    }
}

proof fn lemma_path_bytes_suffix(p: Seq<Seq<char>>, k: int)
    requires
        0 <= k <= p.len(),
    ensures
        path_bytes(p.skip(k)) <= path_bytes(p),
    decreases p.len(),
{
    lemma_path_bytes_nonneg(p);
    if k == p.len() {
        assert(p.skip(k).len() == 0);
    } else {
        let q = p.drop_last();
        lemma_path_bytes_nonneg(q);
        if k < q.len() {
            lemma_path_bytes_suffix(q, k);
            assert(p.skip(k).drop_last() =~= q.skip(k));
            assert(p.skip(k).last() == p.last());
            assert(path_bytes(p.skip(k)) == path_bytes(q.skip(k)) + 1 + vstd::utf8::encode_utf8(p.last()).len());
            assert(path_bytes(p) == path_bytes(q) + 1 + vstd::utf8::encode_utf8(p.last()).len());
        } else {
            assert(p.skip(k) =~= seq![p.last()]);
            assert(seq![p.last()][0] == p.last());
            assert(path_bytes(p.skip(k)) == vstd::utf8::encode_utf8(p.last()).len());
            if p.len() == 1 {
                assert(p[0] == p.last());
            }
        }
    }
}

fn path_bytes_exec(p: &Vec<String>) -> (r: usize)
    requires
        path_bytes(string_views(p@)) <= usize::MAX,
    ensures
        r == path_bytes(string_views(p@)),
{
    let ghost pv = string_views(p@);
    let mut acc: usize = 0;
    let mut i: usize = 0;
    while i < p.len()
        invariant
            pv == string_views(p@),
            path_bytes(pv) <= usize::MAX,
            i <= p@.len(),
            acc == path_bytes(pv.take(i as int)),
        decreases p@.len() - i,
    {
        proof {
            lemma_path_bytes_step(pv, i as int);
            lemma_path_bytes_prefix(pv, i + 1);
            assert(pv[i as int] == p@[i as int]@);
        }
        let n = p[i].as_str().len();
        if i > 0 {
            acc = acc + 1;
        }
        acc = acc + n;
        i += 1;
    }
    assert(pv.take(p@.len() as int) =~= pv);
    acc
}

fn relative_to_exec(file: &Vec<String>, root: &Vec<String>) -> (r: Option<Vec<String>>)
    ensures
        match relative_to(string_views(file@), string_views(root@)) {
            None => r is None,
            Some(rel) => r matches Some(x) && string_views(x@) == rel,
        },
{
    let ghost fv = string_views(file@);
    let ghost pre = parent_components(string_views(root@));
    let pre_len = if root.len() > 0 { root.len() - 1 } else { 0 };
    assert(pre.len() == pre_len);
    if pre_len > file.len() {
        return None;
    }
    let mut j: usize = 0;
    while j < pre_len
        invariant
            pre_len <= file@.len(),
            pre_len == pre.len(),
            pre == parent_components(string_views(root@)),
            fv == string_views(file@),
            j <= pre_len,
            forall|k: int| 0 <= k < j ==> #[trigger] fv[k] == pre[k],
        decreases pre_len - j,
    {
        assert(pre[j as int] == root@[j as int]@);
        if file[j] != root[j] {
            assert(fv.take(pre_len as int)[j as int] != pre[j as int]);
            return None;
        }
        j += 1;
    }
    assert(fv.take(pre_len as int) =~= pre);
    let mut rel: Vec<String> = Vec::new();
    let mut k: usize = pre_len;
    while k < file.len()
        invariant
            pre_len <= k <= file@.len(),
            fv == string_views(file@),
            rel@.len() == k - pre_len,
            forall|m: int| 0 <= m < rel@.len() ==> #[trigger] rel@[m]@ == fv[pre_len + m],
        decreases file@.len() - k,
    {
        rel.push(file[k].clone());
        k += 1;
    }
    assert(string_views(rel@) =~= fv.skip(pre_len as int));
    Some(rel)
}

/// Where an imported file goes inside the input folder (see [`spec_import_relative_path`]);
/// the file and the import roots are given as their path components.
pub fn import_relative_path(file: &Vec<String>, roots: &Vec<Vec<String>>) -> (r: Vec<String>)
    requires
        path_bytes(string_views(file@)) <= usize::MAX,
    ensures
        string_views(r@) == spec_import_relative_path(string_views(file@), paths_view(roots@)),
{
    let ghost fv = string_views(file@);
    let ghost rv = paths_view(roots@);
    let mut best: Option<(usize, Vec<String>, usize)> = None;
    let mut i: usize = 0;
    while i < roots.len()
        invariant
            fv == string_views(file@),
            rv == paths_view(roots@),
            path_bytes(fv) <= usize::MAX,
            i <= roots@.len(),
            match best_root(fv, rv, i as int) {
                None => best is None,
                Some(b) => best matches Some((bi, rel, len)) && bi == b && relative_to(fv, rv[b]) == Some(
                    string_views(rel@),
                ) && len == path_bytes(string_views(rel@)),
            },
        decreases roots@.len() - i,
    {
        assert(rv[i as int] == string_views(roots@[i as int]@));
        match relative_to_exec(file, &roots[i]) {
            Some(rel) => {
                proof {
                    lemma_path_bytes_suffix(fv, parent_components(rv[i as int]).len() as int);
                }
                let len = path_bytes_exec(&rel);
                let better = match &best {
                    None => true,
                    Some((_, _, blen)) => len < *blen,
                };
                if better {
                    best = Some((i, rel, len));
                }
            },
            None => {},
        }
        i += 1;
    }
    match best {
        Some((_, rel, _)) => rel,
        None => {
            let mut r: Vec<String> = Vec::new();
            if file.len() > 0 {
                r.push(file[file.len() - 1].clone());
            } else {
                r.push("unknown".to_owned());
            }
            assert(string_views(r@) =~= spec_import_relative_path(fv, rv));
            r
        },
    }
}

} // verus!
