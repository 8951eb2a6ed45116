use vstd::prelude::*;
use crate::{opt_string_view, ImageInfo, ImageView, DupGroup};
use crate::matcher::{parts_view, views, area_fits, sum_sizes, describes, sort_by_best, confidence_label};
use crate::text::{decimal, push_decimal, push_str, hex_lower};
use crate::hasher::{sha256, sha256_bytes};
use crate::metadata::datetime_out_format;
use vstd::utf8::encode_utf8;
use crate::decode::{decode_file, file_image, DecodeError};
use image::{DynamicImage, GenericImageView};
use image::imageops::FilterType;

verus! {

/// `parts` lists every class of two or more indices whose keys are present
/// and equal, once each, in increasing order, and no other index.
pub open spec fn is_key_partition<T>(keys: Seq<Option<T>>, parts: Seq<Seq<usize>>) -> bool {
    &&& forall|g: int| 0 <= g < parts.len() ==> #[trigger] key_class(keys, parts[g])
    &&& forall|g1: int, g2: int, k: int|
        #![trigger parts[g1][k], parts[g2]]
        0 <= g1 < parts.len() && 0 <= g2 < parts.len() && g1 != g2 && 0 <= k < parts[g1].len()
            ==> !parts[g2].contains(parts[g1][k])
    &&& forall|i: int, j: int|
        0 <= i < keys.len() && 0 <= j < keys.len() && i != j && keys[i] is Some && #[trigger] keys[i] == #[trigger] keys[j]
            ==> exists|g: int| 0 <= g < parts.len() && #[trigger] parts[g].contains(i as usize)
}

/// `p` lists, in increasing order and at least two of them, exactly the
/// indices whose key is present and equal to that of its first member.
pub open spec fn key_class<T>(keys: Seq<Option<T>>, p: Seq<usize>) -> bool {
    &&& p.len() >= 2
    &&& forall|k: int| 0 <= k < p.len() ==> #[trigger] p[k] < keys.len()
    &&& forall|k1: int, k2: int| 0 <= k1 < k2 < p.len() ==> p[k1] < p[k2]
    &&& keys[p[0] as int] is Some
    &&& forall|j: int| 0 <= j < keys.len() ==> (#[trigger] keys[j] == keys[p[0] as int] <==> p.contains(j as usize))
}

/// For each index with a key, the first index with the same key.
pub open spec fn first_occurrences<T>(keys: Seq<Option<T>>, firsts: Seq<Option<usize>>) -> bool {
    &&& firsts.len() == keys.len()
    &&& forall|i: int| 0 <= i < keys.len() ==> (#[trigger] firsts[i] is Some <==> keys[i] is Some)
    &&& forall|i: int| 0 <= i < keys.len() && keys[i] is Some ==> {
        let f = (#[trigger] firsts[i])->0 as int;
        &&& 0 <= f <= i
        &&& keys[f] == keys[i]
        &&& forall|k: int| 0 <= k < f ==> keys[k] != keys[i]
    }
}

/// Two indices with keys have equal keys exactly when they have the same
/// first occurrence, and a first occurrence is its own.
proof fn lemma_first_occurrences<T>(keys: Seq<Option<T>>, firsts: Seq<Option<usize>>, a: int, b: int)
    requires
        first_occurrences(keys, firsts),
        0 <= a < keys.len(),
        0 <= b < keys.len(),
        keys[a] is Some,
    ensures
        keys[b] == keys[a] <==> firsts[b] == firsts[a],
        firsts[firsts[a]->0 as int] == firsts[a],
{
    let fa = firsts[a]->0 as int;
    assert(firsts[a] is Some);
    if keys[b] is Some {
        assert(firsts[b] is Some);
        let fb = firsts[b]->0 as int;
        if keys[b] == keys[a] {
            if fa < fb {
                assert(keys[fa] == keys[b]);
            } else if fb < fa {
                assert(keys[fb] == keys[a]);
            }
        }
        if firsts[b] == firsts[a] {
            assert(keys[fb] == keys[b]);
        }
    } else {
        assert(firsts[b] is None);
    }
    assert(keys[fa] == keys[a]);
    assert(firsts[fa] is Some);
    let ff = firsts[fa]->0 as int;
    assert(keys[ff] == keys[fa]);
    if ff < fa {
        assert(keys[ff] == keys[a]);
    }
}

/// The classes of two or more indices that share a first occurrence.
fn classes_of<T>(Ghost(keys): Ghost<Seq<Option<T>>>, firsts: &Vec<Option<usize>>) -> (parts: Vec<Vec<usize>>)
    requires
        first_occurrences(keys, firsts@),
    ensures
        is_key_partition(keys, parts_view(parts@)),
{
    let n = firsts.len();
    let mut parts: Vec<Vec<usize>> = Vec::new();
    let ghost mut roots: Seq<usize> = Seq::empty();
    for r in 0..n
        invariant
            n == firsts.len(),
            first_occurrences(keys, firsts@),
            roots.len() == parts.len(),
            forall|g: int| 0 <= g < roots.len() ==> #[trigger] roots[g] < r,
            forall|g1: int, g2: int| 0 <= g1 < g2 < roots.len() ==> roots[g1] < roots[g2],
            forall|g: int| 0 <= g < parts.len() ==> key_class(keys, #[trigger] parts@[g]@),
            forall|g: int, k: int| 0 <= g < parts.len() && 0 <= k < n
                ==> (firsts@[k] == Some(roots[g]) <==> #[trigger] parts@[g]@.contains(k as usize)),
            forall|i: int, j: int|
                0 <= i < n && 0 <= j < n && i != j && keys[i] is Some && keys[i] == keys[j] && firsts@[i]->0 < r
                    ==> exists|g: int| 0 <= g < parts.len() && #[trigger] parts@[g]@.contains(i as usize),
    {
        let ghost old_parts = parts@;
        let is_root = match firsts[r] {
            Some(f) => f == r,
            None => false,
        };
        let mut members: Vec<usize> = Vec::new();
        if is_root {
            for i in 0..n
                invariant
                    n == firsts.len(),
                    r < n,
                    forall|k: int| 0 <= k < members.len() ==> #[trigger] members@[k] < i,
                    forall|k1: int, k2: int| 0 <= k1 < k2 < members.len() ==> members@[k1] < members@[k2],
                    forall|k: int| 0 <= k < i ==> (firsts@[k] == Some(r) <==> members@.contains(k as usize)),
            {
                let ghost before = members@;
                let same = match firsts[i] {
                    Some(f) => f == r,
                    None => false,
                };
                if same {
                    members.push(i);
                    assert forall|k: int| 0 <= k < i implies (firsts@[k] == Some(r) <==> members@.contains(k as usize)) by {
                        if before.contains(k as usize) {
                            let w = choose|w: int| 0 <= w < before.len() && before[w] == k as usize;
                            assert(members@[w] == k as usize);
                        }
                        if members@.contains(k as usize) {
                            let w = choose|w: int| 0 <= w < members@.len() && members@[w] == k as usize;
                            assert(w < before.len());
                            assert(before[w] == k as usize);
                        }
                    }
                    assert(members@[members@.len() - 1] == i);
                } else {
                    assert(!members@.contains(i as usize));
                }
            }
        }
        if is_root && members.len() >= 2 {
            proof {
                let p = members@;
                assert(p.contains(p[0]));
                assert(firsts@[p[0] as int] == Some(r));
                assert(keys[p[0] as int] is Some);
                assert forall|j: int| 0 <= j < keys.len() implies (#[trigger] keys[j] == keys[p[0] as int] <==> p.contains(j as usize)) by {
                    lemma_first_occurrences(keys, firsts@, p[0] as int, j);
                }
                assert(key_class(keys, p));
            }
            parts.push(members);
            proof {
                roots = roots.push(r);
                assert forall|g: int| 0 <= g < parts.len() implies key_class(keys, #[trigger] parts@[g]@) by {
                    if g < old_parts.len() {
                        assert(parts@[g] == old_parts[g]);
                    }
                }
                assert forall|i: int, j: int|
                    0 <= i < n && 0 <= j < n && i != j && keys[i] is Some && keys[i] == keys[j] && firsts@[i]->0 < r + 1
                        implies exists|g: int| 0 <= g < parts.len() && #[trigger] parts@[g]@.contains(i as usize) by {
                    if firsts@[i]->0 < r {
                        let g = choose|g: int| 0 <= g < old_parts.len() && #[trigger] old_parts[g]@.contains(i as usize);
                        assert(parts@[g] == old_parts[g]);
                    } else {
                        assert(firsts@[i] is Some);
                        assert(parts@[parts.len() - 1]@.contains(i as usize));
                    }
                }
            }
        } else {
            proof {
                assert forall|i: int, j: int|
                    0 <= i < n && 0 <= j < n && i != j && keys[i] is Some && keys[i] == keys[j] && firsts@[i]->0 < r + 1
                        implies exists|g: int| 0 <= g < parts.len() && #[trigger] parts@[g]@.contains(i as usize) by {
                    if firsts@[i]->0 == r {
                        assert(firsts@[i] is Some);
                        lemma_first_occurrences(keys, firsts@, i, j);
                        if is_root {
                            assert(members@.contains(i as usize));
                            assert(members@.contains(j as usize));
                            let wi = choose|w: int| 0 <= w < members@.len() && members@[w] == i as usize;
                            let wj = choose|w: int| 0 <= w < members@.len() && members@[w] == j as usize;
                        } else {
                            assert(firsts@[r as int] == firsts@[i]);
                        }
                    }
                }
            }
        }
    }
    proof {
        let pv = parts_view(parts@);
        assert forall|g: int| 0 <= g < pv.len() implies #[trigger] key_class(keys, pv[g]) by {
            assert(pv[g] == parts@[g]@);
        }
        assert forall|g1: int, g2: int, k: int|
            #![trigger pv[g1][k], pv[g2]]
            0 <= g1 < pv.len() && 0 <= g2 < pv.len() && g1 != g2 && 0 <= k < pv[g1].len()
                implies !pv[g2].contains(pv[g1][k]) by {
            assert(pv[g1] == parts@[g1]@);
            assert(pv[g2] == parts@[g2]@);
            let x = pv[g1][k] as int;
            assert(key_class(keys, pv[g1]));
            assert(x < n);
            assert(parts@[g1]@.contains(x as usize));
            if pv[g2].contains(x as usize) {
                if g1 < g2 {
                    assert(roots[g1] < roots[g2]);
                } else {
                    assert(roots[g2] < roots[g1]);
                }
            }
        }
        assert forall|i: int, j: int|
            0 <= i < keys.len() && 0 <= j < keys.len() && i != j && keys[i] is Some && #[trigger] keys[i] == #[trigger] keys[j]
                implies exists|g: int| 0 <= g < pv.len() && #[trigger] pv[g].contains(i as usize) by {
            assert(firsts@[i] is Some);
            let g = choose|g: int| 0 <= g < parts.len() && #[trigger] parts@[g]@.contains(i as usize);
            assert(pv[g] == parts@[g]@);
        }
    }
    parts
}

/// For each file size that is known, the first file with the same size.
fn first_same_size(sizes: &Vec<Option<u64>>) -> (firsts: Vec<Option<usize>>)
    ensures
        first_occurrences(sizes@, firsts@),
{
    let n = sizes.len();
    let mut firsts: Vec<Option<usize>> = Vec::new();
    for i in 0..n
        invariant
            n == sizes.len(),
            firsts.len() == i,
            first_occurrences(sizes@.take(i as int), firsts@),
    {
        let mut f: Option<usize> = None;
        match sizes[i] {
            Some(size) => {
                let mut k: usize = 0;
                while k < i
                    invariant
                        k <= i < n,
                        n == sizes.len(),
                        sizes@[i as int] == Some(size),
                        forall|q: int| 0 <= q < k ==> sizes@[q] != Some(size),
                    ensures
                        k <= i,
                        k < i ==> sizes@[k as int] == Some(size),
                        forall|q: int| 0 <= q < k ==> sizes@[q] != Some(size),
                    decreases i - k,
                {
                    if sizes[k] == Some(size) {
                        break;
                    }
                    k = k + 1;
                }
                f = Some(k);
            },
            None => {},
        }
        let ghost before = firsts@;
        firsts.push(f);
        proof {
            let keys = sizes@.take(i + 1);
            let prev = sizes@.take(i as int);
            assert forall|q: int| 0 <= q < i implies keys[q] == prev[q] by {}
            assert(firsts@ == before.push(f));
            assert forall|q: int| 0 <= q < keys.len() implies (#[trigger] firsts@[q] is Some <==> keys[q] is Some) by {
                if q < i {
                    assert(firsts@[q] == before[q]);
                }
            }
            assert forall|q: int| 0 <= q < keys.len() && keys[q] is Some implies {
                let fq = (#[trigger] firsts@[q])->0 as int;
                &&& 0 <= fq <= q
                &&& keys[fq] == keys[q]
                &&& forall|m: int| 0 <= m < fq ==> keys[m] != keys[q]
            } by {
                if q < i {
                    assert(firsts@[q] == before[q]);
                    assert(prev[q] is Some);
                    let fq = before[q]->0 as int;
                    assert(0 <= fq <= q);
                    assert(prev[fq] == prev[q]);
                    assert forall|m: int| 0 <= m < fq implies keys[m] != keys[q] by {
                        assert(prev[m] != prev[q]);
                    }
                } else {
                    assert(q == i);
                    assert(firsts@[q] == f);
                }
            }
        }
    }
    assert(sizes@.take(n as int) == sizes@);
    firsts
}

/// The views of a list of optional strings.
pub open spec fn opt_views(keys: Seq<Option<String>>) -> Seq<Option<Seq<char>>> {
    keys.map_values(|k: Option<String>| opt_string_view(k))
}

/// For each present text, the first index with the same text.
fn first_same_text(keys: &Vec<Option<String>>) -> (firsts: Vec<Option<usize>>)
    ensures
        first_occurrences(opt_views(keys@), firsts@),
{
    let ghost kv = opt_views(keys@);
    let n = keys.len();
    let mut firsts: Vec<Option<usize>> = Vec::new();
    for i in 0..n
        invariant
            n == keys.len(),
            kv == opt_views(keys@),
            firsts.len() == i,
            first_occurrences(kv.take(i as int), firsts@),
    {
        let mut f: Option<usize> = None;
        match &keys[i] {
            Some(text) => {
                let mut k: usize = 0;
                while k < i
                    invariant
                        k <= i < n,
                        n == keys.len(),
                        kv == opt_views(keys@),
                        kv[i as int] == Some(text@),
                        forall|q: int| 0 <= q < k ==> kv[q] != Some(text@),
                    ensures
                        k <= i,
                        k < i ==> kv[k as int] == Some(text@),
                        forall|q: int| 0 <= q < k ==> kv[q] != Some(text@),
                    decreases i - k,
                {
                    let same = match &keys[k] {
                        Some(other) => *other == *text,
                        None => false,
                    };
                    assert(kv[k as int] == opt_string_view(keys@[k as int]));
                    if same {
                        break;
                    }
                    k = k + 1;
                }
                f = Some(k);
            },
            None => {},
        }
        let ghost before = firsts@;
        firsts.push(f);
        proof {
            let ks = kv.take(i + 1);
            let prev = kv.take(i as int);
            assert(ks[i as int] == opt_string_view(keys@[i as int]));
            assert forall|q: int| 0 <= q < i implies ks[q] == prev[q] by {}
            assert(firsts@ == before.push(f));
            assert forall|q: int| 0 <= q < ks.len() implies (#[trigger] firsts@[q] is Some <==> ks[q] is Some) by {
                if q < i {
                    assert(firsts@[q] == before[q]);
                }
            }
            assert forall|q: int| 0 <= q < ks.len() && ks[q] is Some implies {
                let fq = (#[trigger] firsts@[q])->0 as int;
                &&& 0 <= fq <= q
                &&& ks[fq] == ks[q]
                &&& forall|m: int| 0 <= m < fq ==> ks[m] != ks[q]
            } by {
                if q < i {
                    assert(firsts@[q] == before[q]);
                    assert(prev[q] is Some);
                    let fq = before[q]->0 as int;
                    assert(prev[fq] == prev[q]);
                    assert forall|m: int| 0 <= m < fq implies ks[m] != ks[q] by {
                        assert(prev[m] != prev[q]);
                    }
                } else {
                    assert(firsts@[q] == f);
                }
            }
        }
    }
    assert(kv.take(n as int) == kv);
    firsts
}

/// The indices `0 .. n`, in order.
pub open spec fn all_indices(n: nat) -> Seq<usize> {
    Seq::new(n, |i: int| i as usize)
}

/// The candidates of the size phase: with `buscar` every file in one list;
/// otherwise the classes of two or more files of equal known size.
pub fn size_candidates(sizes: &Vec<Option<u64>>, buscar: bool) -> (parts: Vec<Vec<usize>>)
    ensures
        buscar ==> parts@.len() == 1 && parts@[0]@ == all_indices(sizes.len() as nat),
        !buscar ==> is_key_partition(sizes@, parts_view(parts@)),
{
    if buscar {
        let mut all: Vec<usize> = Vec::new();
        for i in 0..sizes.len()
            invariant
                all@ == all_indices(i as nat),
        {
            all.push(i);
            assert(all@ == all_indices((i + 1) as nat));
        }
        let mut parts: Vec<Vec<usize>> = Vec::new();
        parts.push(all);
        parts
    } else {
        let firsts = first_same_size(sizes);
        classes_of::<u64>(Ghost(sizes@), &firsts)
    }
}

/// The candidates of the metadata phase: the classes of two or more files
/// with equal metadata signatures.
pub fn signature_candidates(sigs: &Vec<Option<String>>) -> (parts: Vec<Vec<usize>>)
    ensures
        is_key_partition(opt_views(sigs@), parts_view(parts@)),
{
    let firsts = first_same_text(sigs);
    classes_of::<Seq<char>>(Ghost(opt_views(sigs@)), &firsts)
}

/// The lists one after another.
pub open spec fn concat_all(ps: Seq<Seq<usize>>) -> Seq<usize>
    decreases ps.len(),
{
    if ps.len() == 0 {
        Seq::empty()
    } else {
        concat_all(ps.drop_last()) + ps.last()
    }
}

/// All indices of all lists, list after list.
pub fn flatten_indices(parts: &Vec<Vec<usize>>) -> (r: Vec<usize>)
    ensures
        r@ == concat_all(parts_view(parts@)),
{
    let ghost pv = parts_view(parts@);
    let mut r: Vec<usize> = Vec::new();
    for g in 0..parts.len()
        invariant
            pv == parts_view(parts@),
            r@ == concat_all(pv.take(g as int)),
    {
        let part = &parts[g];
        let ghost start = r@;
        for k in 0..part.len()
            invariant
                r@ == start + part@.take(k as int),
        {
            r.push(part[k]);
            assert(part@.take(k + 1) == part@.take(k as int).push(part@[k as int]));
        }
        assert(part@.take(part.len() as int) == part@);
        assert(pv.take(g + 1).drop_last() == pv.take(g as int));
        assert(pv[g as int] == part@);
    }
    assert(pv.take(parts.len() as int) == pv);
    r
}

/// Another file of the list has the same size as file `i`.
pub open spec fn size_shared(sizes: Seq<u64>, i: int) -> bool {
    exists|j: int| 0 <= j < sizes.len() && j != i && #[trigger] sizes[j] == sizes[i]
}

/// The files below `k`, in order, that are not in `taken` and share their
/// size with another file.
pub open spec fn extra_positions(sizes: Seq<u64>, taken: Seq<usize>, k: nat) -> Seq<usize>
    decreases k,
{
    if k == 0 {
        Seq::empty()
    } else {
        let rest = extra_positions(sizes, taken, (k - 1) as nat);
        if !taken.contains((k - 1) as usize) && size_shared(sizes, k - 1) {
            rest.push((k - 1) as usize)
        } else {
            rest
        }
    }
}

/// Whether `x` is in the list.
fn contains_index(v: &Vec<usize>, x: usize) -> (b: bool)
    ensures
        b == v@.contains(x),
{
    for k in 0..v.len()
        invariant
            forall|q: int| 0 <= q < k ==> v@[q] != x,
    {
        if v[k] == x {
            return true;
        }
    }
    false
}

/// Whether another file has the same size as file `i`.
fn size_is_shared(sizes: &Vec<u64>, i: usize) -> (b: bool)
    requires
        i < sizes.len(),
    ensures
        b == size_shared(sizes@, i as int),
{
    for j in 0..sizes.len()
        invariant
            i < sizes.len(),
            forall|q: int| 0 <= q < j && q != i ==> sizes@[q] != sizes@[i as int],
    {
        if j != i && sizes[j] == sizes[i] {
            return true;
        }
    }
    false
}

/// The files whose contents are hashed, as positions among the files whose
/// metadata was read, of the given sizes: all of them when similar images
/// are searched for; else the signature candidates, class after class,
/// then every other file that shares its size with another one. No two
/// byte-identical files are left out, since such files have the same size.
pub fn hash_selection(buscar: bool, sizes: &Vec<u64>, candidates: &Vec<Vec<usize>>) -> (r: Vec<usize>)
    ensures
        buscar ==> r@ == all_indices(sizes.len() as nat),
        !buscar ==> r@ == concat_all(parts_view(candidates@)) + extra_positions(
            sizes@,
            concat_all(parts_view(candidates@)),
            sizes.len() as nat,
        ),
        forall|i: int| 0 <= i < sizes.len() && #[trigger] size_shared(sizes@, i) ==> r@.contains(i as usize),
{
    let n = sizes.len();
    if buscar {
        let mut all: Vec<usize> = Vec::new();
        for i in 0..n
            invariant
                all@ == all_indices(i as nat),
        {
            all.push(i);
            assert(all@ == all_indices((i + 1) as nat));
        }
        assert forall|i: int| 0 <= i < n && #[trigger] size_shared(sizes@, i) implies all@.contains(i as usize) by {
            assert(all@[i] == i as usize);
        }
        all
    } else {
        let flat = flatten_indices(candidates);
        let mut r = flatten_indices(candidates);
        for i in 0..n
            invariant
                n == sizes.len(),
                flat@ == concat_all(parts_view(candidates@)),
                r@ == flat@ + extra_positions(sizes@, flat@, i as nat),
                forall|q: int| 0 <= q < i && #[trigger] size_shared(sizes@, q) ==> r@.contains(q as usize),
        {
            let ghost before = r@;
            let taken = contains_index(&flat, i);
            let shared = size_is_shared(sizes, i);
            if !taken && shared {
                r.push(i);
                assert(r@ == before.push(i));
                assert(r@[before.len() as int] == i);
                assert forall|q: int| 0 <= q < i + 1 && #[trigger] size_shared(sizes@, q) implies r@.contains(q as usize) by {
                    if q < i {
                        let w = choose|w: int| 0 <= w < before.len() && before[w] == q as usize;
                        assert(r@[w] == q as usize);
                    }
                }
            } else if shared {
                proof {
                    let w = choose|w: int| 0 <= w < flat@.len() && flat@[w] == i;
                    assert(r@[w] == i);
                }
            }
            assert(r@ == flat@ + extra_positions(sizes@, flat@, (i + 1) as nat));
        }
        r
    }
}

/// How many files pass between two progress reports.
pub const PROGRESS_BATCH: usize = 50;

/// Whether progress is reported after `done` of `total` files: every
/// [`PROGRESS_BATCH`] files and at the last one.
pub fn should_report(done: usize, total: usize) -> (r: bool)
    ensures
        r == (done % 50 == 0 || done == total),
{
    done % PROGRESS_BATCH == 0 || done == total
}

/// Appends the text of a literal to `s`.
fn push_lit(s: &mut String, t: &str)
    ensures
        final(s)@ == old(s)@ + t@,
{
    push_str(s, t);
}

/// "`discarded` descartados, `candidates` candidatos".
pub open spec fn spec_candidates_detail(discarded: nat, candidates: nat) -> Seq<char> {
    decimal(discarded) + " descartados, "@ + decimal(candidates) + " candidatos"@
}

/// The progress detail of a filtering phase: how many files it set aside and
/// how many it kept.
pub fn candidates_detail(discarded: usize, candidates: usize) -> (r: String)
    ensures
        r@ == spec_candidates_detail(discarded as nat, candidates as nat),
{
    let mut r = String::new();
    push_decimal(&mut r, discarded as u64);
    push_lit(&mut r, " descartados, ");
    push_decimal(&mut r, candidates as u64);
    push_lit(&mut r, " candidatos");
    r
}

/// "`groups` grupo(s) encontrados", followed by ", `skipped` archivo(s)
/// omitidos" when files were skipped.
pub open spec fn spec_summary_detail(groups: nat, skipped: nat) -> Seq<char> {
    decimal(groups) + " grupo(s) encontrados"@ + (if skipped > 0 {
        ", "@ + decimal(skipped) + " archivo(s) omitidos"@
    } else {
        Seq::empty()
    })
}

/// The closing progress detail of a scan.
pub fn summary_detail(groups: usize, skipped: usize) -> (r: String)
    ensures
        r@ == spec_summary_detail(groups as nat, skipped as nat),
{
    let mut r = String::new();
    push_decimal(&mut r, groups as u64);
    push_lit(&mut r, " grupo(s) encontrados");
    if skipped > 0 {
        push_lit(&mut r, ", ");
        push_decimal(&mut r, skipped as u64);
        push_lit(&mut r, " archivo(s) omitidos");
    }
    r
}

/// `s` with every double quote doubled.
pub open spec fn double_quotes(s: Seq<char>) -> Seq<char>
    decreases s.len(),
{
    if s.len() == 0 {
        Seq::empty()
    } else if s.last() == '"' {
        double_quotes(s.drop_last()) + seq!['"', '"']
    } else {
        double_quotes(s.drop_last()).push(s.last())
    }
}

/// A CSV field: the text in double quotes, with its own quotes doubled.
pub open spec fn spec_csv_escape(s: Seq<char>) -> Seq<char> {
    seq!['"'] + double_quotes(s) + seq!['"']
}

/// Writes `s` as one CSV field.
pub fn csv_escape(s: &str) -> (r: String)
    ensures
        r@ == spec_csv_escape(s@),
{
    let cs = crate::text::chars_of(s);
    let mut r = String::new();
    r.push('"');
    for i in 0..cs.len()
        invariant
            cs@ == s@,
            r@ == seq!['"'] + double_quotes(cs@.take(i as int)),
    {
        let c = cs[i];
        assert(cs@.take(i + 1).drop_last() == cs@.take(i as int));
        if c == '"' {
            r.push('"');
            r.push('"');
        } else {
            r.push(c);
        }
    }
    assert(cs@.take(cs.len() as int) == cs@);
    r.push('"');
    r
}

/// The first line of the history file.
pub const HISTORY_HEADER: &'static str = "fecha,modo,ruta";

/// One line of the history file: date, mode and the path as a CSV field.
pub open spec fn spec_history_line(fecha: Seq<char>, modo: Seq<char>, ruta: Seq<char>) -> Seq<char> {
    fecha + seq![','] + modo + seq![','] + spec_csv_escape(ruta)
}

/// Writes one line of the history file.
pub fn history_line(fecha: &str, modo: &str, ruta: &str) -> (r: String)
    ensures
        r@ == spec_history_line(fecha@, modo@, ruta@),
{
    let mut r = String::new();
    push_str(&mut r, fecha);
    r.push(',');
    push_str(&mut r, modo);
    r.push(',');
    let field = csv_escape(ruta);
    push_str(&mut r, field.as_str());
    r
}

/// The history entry of a moved file: "`origen` -> `destino`".
pub fn move_entry(origen: &str, destino: &str) -> (r: String)
    ensures
        r@ == origen@ + " -> "@ + destino@,
{
    let mut r = String::new();
    push_str(&mut r, origen);
    push_lit(&mut r, " -> ");
    push_str(&mut r, destino);
    r
}

/// The history mode of a deletion: "papelera" into the trash, "permanente"
/// otherwise.
pub fn delete_mode(to_trash: bool) -> (r: &'static str)
    ensures
        r@ == (if to_trash { "papelera"@ } else { "permanente"@ }),
{
    if to_trash {
        "papelera"
    } else {
        "permanente"
    }
}

/// The name tried for a moved file when its own name is taken:
/// "`stem` (`i`).`ext`", or "`stem` (`i`)" without an extension.
pub open spec fn spec_candidate_name(stem: Seq<char>, ext: Seq<char>, i: nat) -> Seq<char> {
    let base = stem + " ("@ + decimal(i) + seq![')'];
    if ext.len() == 0 { base } else { base + seq!['.'] + ext }
}

/// Builds the name tried for a moved file when its own name is taken.
pub fn candidate_name(stem: &str, ext: &str, i: u64) -> (r: String)
    ensures
        r@ == spec_candidate_name(stem@, ext@, i as nat),
{
    let mut r = String::new();
    push_str(&mut r, stem);
    push_lit(&mut r, " (");
    push_decimal(&mut r, i);
    r.push(')');
    if !ext.is_empty() {
        r.push('.');
        push_str(&mut r, ext);
    }
    r
}

/// Mean difference per channel above which a pixel counts as changed.
pub const DIFF_THRESHOLD: i32 = 20;

/// Widest difference map drawn.
pub const DIFF_MAX_WIDTH: u32 = 1600;

/// The size of a difference map for images of `w` by `h` pixels: the width
/// capped at [`DIFF_MAX_WIDTH`], the height scaled with it, at least one.
pub open spec fn spec_diff_canvas(w: nat, h: nat) -> (nat, nat) {
    let cw: nat = if w < 1600 { w } else { 1600 };
    let den: nat = if w < 1 { 1 } else { w };
    let ch: nat = (h * cw) / den;
    (cw, if ch < 1 { 1 } else { ch })
}

/// Computes the size of a difference map.
pub fn diff_canvas(w: u32, h: u32) -> (r: (u32, u32))
    ensures
        (r.0 as nat, r.1 as nat) == spec_diff_canvas(w as nat, h as nat),
{
    let cw: u32 = if w < DIFF_MAX_WIDTH { w } else { DIFF_MAX_WIDTH };
    let den: u64 = if w < 1 { 1 } else { w as u64 };
    assert((h as int) * (cw as int) <= 0xffff_ffff * 1600) by (nonlinear_arith)
        requires
            h <= 0xffff_ffff,
            cw <= 1600,
    ;
    let prod: u64 = h as u64 * cw as u64;
    let ch: u64 = prod / den;
    assert(ch <= h) by (nonlinear_arith)
        requires
            ch == prod / den,
            prod == h * cw,
            den >= 1,
            cw <= den,
    {
        assert((h as int) * (cw as int) <= (h as int) * (den as int));
        assert((prod as int) / (den as int) <= ((h as int) * (den as int)) / (den as int));
    }
    let ch32: u32 = if ch < 1 { 1 } else { ch as u32 };
    (cw, ch32)
}

/// The difference map keeps the images' aspect ratio: its width is the
/// image width capped at [`DIFF_MAX_WIDTH`], and its height is the image
/// height scaled by the same factor, rounded down, but at least one pixel,
/// with no other bound (`h * cw / w` lies in `[ch, ch + 1)` unless that
/// rounds to zero). An image without width gives a map one pixel high.
pub proof fn lemma_diff_canvas_keeps_ratio(w: nat, h: nat)
    ensures
        spec_diff_canvas(w, h).0 == (if w <= 1600 { w } else { 1600 }),
        spec_diff_canvas(w, h).1 >= 1,
        w >= 1 ==> h * spec_diff_canvas(w, h).0 < (spec_diff_canvas(w, h).1 + 1) * w,
        w >= 1 && spec_diff_canvas(w, h).1 > 1 ==> spec_diff_canvas(w, h).1 * w <= h * spec_diff_canvas(w, h).0,
        w >= 1 && h * spec_diff_canvas(w, h).0 >= w ==> spec_diff_canvas(w, h).1 * w <= h * spec_diff_canvas(
            w,
            h,
        ).0,
        w == 0 ==> spec_diff_canvas(w, h) == (0nat, 1nat),
{
    let cw: nat = if w < 1600 { w } else { 1600 };
    if w >= 1 {
        let q = (h * cw) / w;
        assert(q * w <= h * cw && h * cw < (q + 1) * w) by (nonlinear_arith)
            requires
                w >= 1,
                q == (h * cw) / w,
        ;
        if h * cw >= w {
            assert(q >= 1) by (nonlinear_arith)
                requires
                    w >= 1,
                    h * cw >= w,
                    h * cw < (q + 1) * w,
            ;
        }
        if q < 1 {
            assert(h * cw < 2 * w) by (nonlinear_arith)
                requires
                    h * cw < (q + 1) * w,
                    q < 1,
                    w >= 1,
            ;
        }
    }
}

/// Absolute difference of two channel values.
fn channel_gap(a: u8, b: u8) -> (r: i32)
    ensures
        r == (if a > b { a - b } else { b - a }),
{
    if a > b { (a - b) as i32 } else { (b - a) as i32 }
}

/// Mean absolute difference over the three channels of two pixels.
pub open spec fn spec_pixel_difference(a: (u8, u8, u8), b: (u8, u8, u8)) -> int {
    let d0: int = if a.0 > b.0 { a.0 - b.0 } else { b.0 - a.0 };
    let d1: int = if a.1 > b.1 { a.1 - b.1 } else { b.1 - a.1 };
    let d2: int = if a.2 > b.2 { a.2 - b.2 } else { b.2 - a.2 };
    (d0 + d1 + d2) / 3
}

/// The mean absolute difference over the three channels of two pixels.
pub fn pixel_difference(a: (u8, u8, u8), b: (u8, u8, u8)) -> (d: i32)
    ensures
        d == spec_pixel_difference(a, b),
        0 <= d <= 255,
{
    (channel_gap(a.0, b.0) + channel_gap(a.1, b.1) + channel_gap(a.2, b.2)) / 3
}

/// Whether a pixel difference marks the pixel as changed.
pub fn is_changed(d: i32) -> (r: bool)
    ensures
        r == (d > DIFF_THRESHOLD),
{
    d > DIFF_THRESHOLD
}

/// The grey level that an unchanged pixel of luminance `lum` is drawn with:
/// darkened to 40 plus three tenths of it.
pub fn gray_level(lum: u8) -> (g: u8)
    ensures
        g == 40 + (lum * 3) / 10,
{
    40 + ((lum as u16 * 3 / 10) as u8)
}

/// The pixel `i` of a row-by-row RGB buffer.
pub open spec fn rgb_pixel(p: Seq<u8>, i: int) -> (u8, u8, u8) {
    (p[3 * i], p[3 * i + 1], p[3 * i + 2])
}

/// Pixel `i` of two RGB buffers of the same size differs enough to be
/// marked as changed.
pub open spec fn pixel_changed(a: Seq<u8>, b: Seq<u8>, i: int) -> bool {
    spec_pixel_difference(rgb_pixel(a, i), rgb_pixel(b, i)) > DIFF_THRESHOLD
}

/// For each pixel of two RGB buffers of the same size, whether it changed.
pub open spec fn changed_map(a: Seq<u8>, b: Seq<u8>) -> Seq<bool> {
    Seq::new(a.len() / 3, |i: int| pixel_changed(a, b, i))
}

/// Marks, for each pixel of two RGB buffers of the same size, whether it
/// changed.
pub fn changed_mask(a: &[u8], b: &[u8]) -> (m: Vec<bool>)
    requires
        a@.len() == b@.len(),
        a@.len() % 3 == 0,
    ensures
        m@ == changed_map(a@, b@),
{
    let n = a.len() / 3;
    let mut m: Vec<bool> = Vec::new();
    for i in 0..n
        invariant
            n == a@.len() / 3,
            a@.len() == b@.len(),
            a@.len() % 3 == 0,
            m@.len() == i,
            forall|q: int| 0 <= q < i ==> m@[q] == pixel_changed(a@, b@, q),
    {
        assert(3 * i + 2 < a@.len());
        assert(a@.len() == a.len());
        let k: usize = 3 * i;
        let pa = (a[k], a[k + 1], a[k + 2]);
        let pb = (b[k], b[k + 1], b[k + 2]);
        let d = pixel_difference(pa, pb);
        m.push(is_changed(d));
    }
    assert(m@ =~= changed_map(a@, b@));
    m
}

/// Whether any pixel is marked as changed.
pub fn any_changed(m: &[bool]) -> (r: bool)
    ensures
        r == m@.contains(true),
{
    for i in 0..m.len()
        invariant
            forall|q: int| 0 <= q < i ==> !m@[q],
    {
        if m[i] {
            assert(m@[i as int] == true);
            return true;
        }
    }
    assert forall|x: bool| m@.contains(x) implies x == false by {}
    false
}

/// The width and height of an image.
pub uninterp spec fn image_size(img: DynamicImage) -> (u32, u32);

/// Calls `GenericImageView::dimensions` on the image: its width and height.
#[verifier::external_body]
fn dimensions_of(img: &DynamicImage) -> (r: (u32, u32))
    ensures
        r == image_size(*img),
{
    img.dimensions()
}

/// The RGB bytes, row by row, of the image resized to `w` by `h` pixels.
pub uninterp spec fn rgb_resized(img: DynamicImage, w: u32, h: u32) -> Seq<u8>;

/// Calls `DynamicImage::resize_exact(w, h, Triangle)`, then `into_rgb8` and
/// `into_raw`: the pixels of the resized image as RGB bytes, three per pixel,
/// row by row. They depend on the image and the size alone.
#[verifier::external_body]
fn resize_rgb(img: &DynamicImage, w: u32, h: u32) -> (p: Vec<u8>)
    ensures
        p@ == rgb_resized(*img, w, h),
        p@.len() == w as nat * h as nat * 3,
{
    img.resize_exact(w, h, FilterType::Triangle).into_rgb8().into_raw()
}

/// Two images brought to the size of their difference map, with the pixels
/// that changed between them.
pub struct PixelComparison {
    pub width: u32,
    pub height: u32,
    pub a: Vec<u8>,
    pub b: Vec<u8>,
    pub changed: Vec<bool>,
}

/// `c` compares the images `a` and `b` (of the same size): both resized to
/// the difference map, three bytes per pixel, and for each pixel whether it
/// changed.
pub open spec fn compares(a: DynamicImage, b: DynamicImage, c: PixelComparison) -> bool {
    let (w, h) = image_size(a);
    &&& (c.width as nat, c.height as nat) == spec_diff_canvas(w as nat, h as nat)
    &&& c.a@ == rgb_resized(a, c.width, c.height)
    &&& c.b@ == rgb_resized(b, c.width, c.height)
    &&& c.a@.len() == c.width as nat * c.height as nat * 3
    &&& c.b@.len() == c.width as nat * c.height as nat * 3
    &&& c.changed@ == changed_map(c.a@, c.b@)
}

/// What comparing the images `a` and `b` gives: their two sizes when they
/// differ, else their comparison.
pub open spec fn comparison_outcome(
    a: DynamicImage,
    b: DynamicImage,
    r: Result<PixelComparison, ((u32, u32), (u32, u32))>,
) -> bool {
    &&& (r is Err <==> image_size(a) != image_size(b))
    &&& (r is Err ==> r->Err_0 == (image_size(a), image_size(b)))
    &&& (r is Ok ==> compares(a, b, r->Ok_0))
}

/// Compares two images of the same size pixel by pixel, on a map of at most
/// [`DIFF_MAX_WIDTH`] pixels across: both resized to the map, and for each
/// pixel whether it changed. Images of different sizes give their two sizes
/// back as the error.
pub fn compare_images(a: &DynamicImage, b: &DynamicImage) -> (r: Result<PixelComparison, ((u32, u32), (u32, u32))>)
    ensures
        comparison_outcome(*a, *b, r),
{
    let da = dimensions_of(a);
    let db = dimensions_of(b);
    if da.0 != db.0 || da.1 != db.1 {
        return Err((da, db));
    }
    let (cw, ch) = diff_canvas(da.0, da.1);
    let pa = resize_rgb(a, cw, ch);
    let pb = resize_rgb(b, cw, ch);
    assert(pa@.len() % 3 == 0) by (nonlinear_arith)
        requires
            pa@.len() == cw as nat * ch as nat * 3,
    ;
    let changed = changed_mask(pa.as_slice(), pb.as_slice());
    Ok(PixelComparison { width: cw, height: ch, a: pa, b: pb, changed })
}

/// The difference map does not depend on which image comes first: the
/// comparison of `b` with `a` marks the same pixels as that of `a` with `b`
/// (with the two resized images swapped), and an image compared with itself
/// shows no change.
pub proof fn lemma_comparison_symmetric(a: DynamicImage, b: DynamicImage, c1: PixelComparison, c2: PixelComparison)
    requires
        compares(a, b, c1),
        compares(b, a, c2),
        image_size(a) == image_size(b),
    ensures
        c1.width == c2.width && c1.height == c2.height,
        c1.a@ == c2.b@ && c1.b@ == c2.a@,
        c1.changed@ == c2.changed@,
        a == b ==> !c1.changed@.contains(true),
{
    assert(c1.changed@ =~= c2.changed@);
    if a == b {
        assert forall|x: bool| c1.changed@.contains(x) implies x == false by {
            let i = choose|i: int| 0 <= i < c1.changed@.len() && c1.changed@[i] == x;
            assert(c1.a@ == c1.b@);
        }
    }
}

/// Why two image files could not be compared.
pub enum DiffError {
    /// The first file does not decode.
    DecodeA(DecodeError),
    /// The second file does not decode.
    DecodeB(DecodeError),
    /// The two images differ in size: the first size, then the second.
    Sizes((u32, u32), (u32, u32)),
}

/// Compares two image files, from their contents and extensions: the first
/// file's decoding error if it does not decode, else the second's, else the
/// comparison of the two images, or their two sizes when they differ.
pub fn diff_files(a: &[u8], ext_a: &str, b: &[u8], ext_b: &str) -> (r: Result<PixelComparison, DiffError>)
    ensures
        (r matches Err(DiffError::DecodeA(_))) <==> file_image(a@, ext_a@) is None,
        (r matches Err(DiffError::DecodeB(_))) <==> (file_image(a@, ext_a@) is Some && file_image(b@, ext_b@) is None),
        file_image(a@, ext_a@) is Some && file_image(b@, ext_b@) is Some ==> {
            let ia = file_image(a@, ext_a@)->0;
            let ib = file_image(b@, ext_b@)->0;
            &&& (r matches Err(DiffError::Sizes(_, _))) <==> image_size(ia) != image_size(ib)
            &&& (r matches Err(DiffError::Sizes(sa, sb)) ==> sa == image_size(ia) && sb == image_size(ib))
            &&& (r is Ok ==> compares(ia, ib, r->Ok_0))
        },
{
    let ia = match decode_file(a, ext_a) {
        Ok(img) => img,
        Err(e) => return Err(DiffError::DecodeA(e)),
    };
    let ib = match decode_file(b, ext_b) {
        Ok(img) => img,
        Err(e) => return Err(DiffError::DecodeB(e)),
    };
    match compare_images(&ia, &ib) {
        Ok(c) => Ok(c),
        Err((sa, sb)) => Err(DiffError::Sizes(sa, sb)),
    }
}

/// File name of the cached difference map of two images: "diff-", the
/// SHA-256 digest in hexadecimal of "`a`|`b`|v2", and ".png".
pub open spec fn spec_diff_file_name(a: Seq<char>, b: Seq<char>) -> Seq<char> {
    "diff-"@ + hex_lower(sha256(encode_utf8(a + seq!['|'] + b + "|v2"@))) + ".png"@
}

/// Builds the file name of the cached difference map of two images.
pub fn diff_file_name(path_a: &str, path_b: &str) -> (r: String)
    ensures
        r@ == spec_diff_file_name(path_a@, path_b@),
{
    let mut key_text = String::new();
    push_str(&mut key_text, path_a);
    key_text.push('|');
    push_str(&mut key_text, path_b);
    push_lit(&mut key_text, "|v2");
    assert(key_text@ == path_a@ + seq!['|'] + path_b@ + "|v2"@);
    let key_str = key_text.as_str();
    let key_bytes = key_str.as_bytes();
    assert(key_bytes@ == encode_utf8(key_text@));
    let key = sha256_bytes(key_bytes);
    let mut r = String::new();
    push_lit(&mut r, "diff-");
    push_str(&mut r, key.as_str());
    push_lit(&mut r, ".png");
    r
}

/// The text that `chrono::DateTime::from_timestamp(secs, 0)` formatted with
/// `out` gives, when the timestamp is in range.
pub uninterp spec fn timestamp_formatted(secs: i64, out: Seq<char>) -> Option<Seq<char>>;

/// Calls `chrono::DateTime::from_timestamp(secs, 0)` and, when the time is
/// representable, `format(out)` and `to_string`. The result depends on the
/// arguments alone; `out` is the library's output format.
#[verifier::external_body]
fn format_timestamp(secs: i64, out: &str) -> (r: Option<String>)
    requires
        out@ == datetime_out_format(),
    ensures
        opt_string_view(r) == timestamp_formatted(secs, out@),
{
    match chrono::DateTime::from_timestamp(secs, 0) {
        Some(dt) => Some(dt.format(out).to_string()),
        None => None,
    }
}

/// The modification date shown for a file modified `secs` seconds after the
/// epoch: its UTC date and time, or nothing when it is out of range.
pub open spec fn spec_modified_text(secs: i64) -> Option<Seq<char>> {
    let t = timestamp_formatted(secs, datetime_out_format());
    if t is Some && t->0.len() > 0 { t } else { None }
}

/// Formats the modification time of a file.
pub fn modified_text(secs: i64) -> (r: Option<String>)
    ensures
        opt_string_view(r) == spec_modified_text(secs),
{
    let out = "%Y-%m-%d %H:%M:%S";
    let text = match format_timestamp(secs, out) {
        Some(t) => t,
        None => String::new(),
    };
    if text.as_str().is_empty() {
        None
    } else {
        Some(text)
    }
}

/// The images seen so far during a scan, by content hash, from which
/// duplicates are announced as soon as they are found.
pub struct LiveDuplicates {
    hashes: Vec<String>,
    seen: Vec<Vec<ImageInfo>>,
}

impl LiveDuplicates {
    /// The list is well formed: one entry per hash, each hash once, every
    /// image under the hash it has, no entry empty.
    pub closed spec fn wf(&self) -> bool {
        &&& self.keys_ok()
        &&& forall|k: int, m: int|
            0 <= k < self.seen.len() && 0 <= m < self.seen@[k].len() ==> (#[trigger] self.seen@[k]@[m])@.hash
                == self.hashes@[k]@
        &&& forall|k: int| 0 <= k < self.seen.len() ==> (#[trigger] self.seen@[k]).len() > 0
    }

    /// One entry per hash, each hash once.
    closed spec fn keys_ok(&self) -> bool {
        &&& self.hashes.len() == self.seen.len()
        &&& forall|k1: int, k2: int|
            0 <= k1 < k2 < self.hashes.len() ==> (#[trigger] self.hashes@[k1])@ != (#[trigger] self.hashes@[k2])@
    }

    /// The images seen with content hash `h`, in the order they were seen.
    pub closed spec fn seen_with(&self, h: Seq<char>) -> Seq<ImageView> {
        if exists|k: int| 0 <= k < self.hashes.len() && (#[trigger] self.hashes@[k])@ == h {
            views(self.seen@[choose|k: int| 0 <= k < self.hashes.len() && (#[trigger] self.hashes@[k])@ == h]@)
        } else {
            Seq::empty()
        }
    }

    proof fn lemma_seen_at(&self, k: int)
        requires
            self.keys_ok(),
            0 <= k < self.hashes.len(),
        ensures
            self.seen_with(self.hashes@[k]@) == views(self.seen@[k]@),
    {
        let h = self.hashes@[k]@;
        let c = choose|j: int| 0 <= j < self.hashes.len() && (#[trigger] self.hashes@[j])@ == h;
        if c != k {
            if c < k {
                assert(self.hashes@[c]@ != self.hashes@[k]@);
            } else {
                assert(self.hashes@[k]@ != self.hashes@[c]@);
            }
        }
    }

    /// Every image seen with hash `h` carries that hash.
    pub proof fn lemma_seen_carry_hash(&self, h: Seq<char>, m: int)
        requires
            self.wf(),
            0 <= m < self.seen_with(h).len(),
        ensures
            self.seen_with(h)[m].hash == h,
    {
        let k = choose|k: int| 0 <= k < self.hashes.len() && (#[trigger] self.hashes@[k])@ == h;
        assert(self.seen_with(h) == views(self.seen@[k]@));
        assert(self.seen@[k]@[m]@.hash == self.hashes@[k]@);
    }

    /// Nothing seen yet.
    pub fn new() -> (r: Self)
        ensures
            r.wf(),
            forall|h: Seq<char>| #[trigger] r.seen_with(h) == Seq::<ImageView>::empty(),
    {
        LiveDuplicates { hashes: Vec::new(), seen: Vec::new() }
    }

    /// Whether `img` can be recorded: once it makes two or more images with
    /// its hash, the pixel count of each of them fits in 32 bits and their
    /// total size fits in 64 bits.
    pub open spec fn can_record(&self, img: ImageView) -> bool {
        let v = self.seen_with(img.hash).push(img);
        v.len() >= 2 ==> (forall|m: int| 0 <= m < v.len() ==> area_fits(#[trigger] v[m])) && sum_sizes(v)
            <= u64::MAX
    }

    /// Where `h` is in the list, if it is.
    fn position(&self, h: &String) -> (r: Option<usize>)
        requires
            self.wf(),
        ensures
            match r {
                Some(k) => k < self.hashes.len() && self.hashes@[k as int]@ == h@,
                None => forall|k: int| 0 <= k < self.hashes.len() ==> (#[trigger] self.hashes@[k])@ != h@,
            },
    {
        let mut k: usize = 0;
        while k < self.hashes.len()
            invariant
                k <= self.hashes.len(),
                forall|q: int| 0 <= q < k ==> (#[trigger] self.hashes@[q])@ != h@,
            decreases self.hashes.len() - k,
        {
            if self.hashes[k] == *h {
                return Some(k);
            }
            k = k + 1;
        }
        None
    }

    /// Pixel count of an image, as a 64-bit number.
    fn area_u64(img: &ImageInfo) -> (a: u64)
        ensures
            a as nat == crate::matcher::area(img@),
    {
        let w: u64 = match img.width {
            Some(w) => w as u64,
            None => 0,
        };
        let h: u64 = match img.height {
            Some(h) => h as u64,
            None => 0,
        };
        assert(w * h <= 0xffff_ffff * 0xffff_ffff) by (nonlinear_arith)
            requires
                w <= 0xffff_ffff,
                h <= 0xffff_ffff,
        ;
        w * h
    }

    /// Whether [`record`](Self::record) may take `img`.
    pub fn fits(&self, img: &ImageInfo) -> (r: bool)
        requires
            self.wf(),
        ensures
            r == self.can_record(img@),
    {
        let ghost v = self.seen_with(img@.hash).push(img@);
        let k = match self.position(&img.hash) {
            Some(k) => k,
            None => {
                assert(self.seen_with(img@.hash) == Seq::<ImageView>::empty());
                assert(v.len() == 1);
                return true;
            },
        };
        proof {
            self.lemma_seen_at(k as int);
        }
        let entry = &self.seen[k];
        let n = entry.len();
        assert(v.len() == n + 1);
        assert(n > 0);
        let mut total: u64 = 0;
        for i in 0..n
            invariant
                k < self.seen.len(),
                entry == self.seen@[k as int],
                n == entry.len(),
                views(entry@) == self.seen_with(img@.hash),
                v == views(entry@).push(img@),
                total as nat == sum_sizes(v.take(i as int)),
                forall|m: int| 0 <= m < i ==> area_fits(#[trigger] v[m]),
        {
            assert(v.take(i + 1).drop_last() == v.take(i as int));
            assert(v[i as int] == entry@[i as int]@);
            if Self::area_u64(&entry[i]) > 0xffff_ffff {
                proof {
                    assert(!area_fits(v[i as int]));
                    assert(v.len() >= 2);
                    assert(v == self.seen_with(img@.hash).push(img@));
                    assert(!(forall|m: int| 0 <= m < v.len() ==> area_fits(#[trigger] v[m])));
                }
                return false;
            }
            if total > u64::MAX - entry[i].size_bytes {
                proof {
                    crate::matcher::lemma_sum_prefix(v, i + 1);
                }
                return false;
            }
            total = total + entry[i].size_bytes;
        }
        proof {
            assert(v.take(n as int) == self.seen_with(img@.hash));
            assert(v.drop_last() == v.take(n as int));
            assert(v[n as int] == img@);
        }
        if Self::area_u64(img) > 0xffff_ffff {
            return false;
        }
        if total > u64::MAX - img.size_bytes {
            return false;
        }
        true
    }

    /// Records `img`. When it is the second or later image with its content
    /// hash, gives the group of all images seen with that hash.
    pub fn record(&mut self, img: &ImageInfo) -> (r: Option<DupGroup>)
        requires
            old(self).wf(),
            old(self).can_record(img@),
        ensures
            final(self).wf(),
            forall|h: Seq<char>| #[trigger] final(self).seen_with(h) == if h == img@.hash {
                old(self).seen_with(h).push(img@)
            } else {
                old(self).seen_with(h)
            },
            r is Some <==> final(self).seen_with(img@.hash).len() >= 2,
            r is Some ==> describes(r->0@, final(self).seen_with(img@.hash)),
            r is Some ==> r->0@.confidence == crate::matcher::exact_label(),
    {
        broadcast use vstd::seq_lib::group_to_multiset_ensures, vstd::multiset::group_multiset_axioms;
        let ghost old_self = *self;
        let k: usize = match self.position(&img.hash) {
            Some(k) => k,
            None => {
                self.hashes.push(img.hash.clone());
                self.seen.push(Vec::new());
                proof {
                    assert forall|h: Seq<char>| #[trigger] self.seen_with(h) == old_self.seen_with(h) || h == img@.hash by {
                        if h != img@.hash {
                            if exists|j: int| 0 <= j < old_self.hashes.len() && (#[trigger] old_self.hashes@[j])@ == h {
                                let j = choose|j: int| 0 <= j < old_self.hashes.len() && (#[trigger] old_self.hashes@[j])@ == h;
                                assert(self.hashes@[j] == old_self.hashes@[j]);
                                old_self.lemma_seen_at(j);
                                self.lemma_seen_at(j);
                            } else {
                                assert forall|j: int| 0 <= j < self.hashes.len() implies (#[trigger] self.hashes@[j])@ != h by {
                                    if j < old_self.hashes.len() {
                                        assert(self.hashes@[j] == old_self.hashes@[j]);
                                    }
                                }
                            }
                        }
                    }
                    self.lemma_seen_at(self.hashes.len() - 1);
                    assert(views(self.seen@[self.hashes.len() - 1]@) =~= Seq::<ImageView>::empty());
                }
                self.hashes.len() - 1
            },
        };
        let ghost mid = *self;
        proof {
            assert(forall|h: Seq<char>| h != img@.hash ==> #[trigger] mid.seen_with(h) == old_self.seen_with(h));
            mid.lemma_seen_at(k as int);
            assert(mid.seen_with(img@.hash) == old_self.seen_with(img@.hash)) by {
                if exists|j: int| 0 <= j < old_self.hashes.len() && (#[trigger] old_self.hashes@[j])@ == img@.hash {
                    let j = choose|j: int| 0 <= j < old_self.hashes.len() && (#[trigger] old_self.hashes@[j])@ == img@.hash;
                    old_self.lemma_seen_at(j);
                }
            }
        }
        let mut entry = self.seen.remove(k);
        entry.push(img.duplicate());
        let mut images: Vec<ImageInfo> = Vec::new();
        let ghost ev = entry@;
        for i in 0..entry.len()
            invariant
                entry@ == ev,
                images.len() == i,
                i <= entry.len(),
                views(images@) == views(entry@).take(i as int),
                forall|m: int| 0 <= m < images.len() ==> #[trigger] images@[m]@ == entry@[m]@,
        {
            let d = entry[i].duplicate();
            let ghost before = images@;
            let ghost dv = d@;
            images.push(d);
            proof {
                assert(images@ == before.push(d));
                assert(dv == entry@[i as int]@);
                assert forall|m: int| 0 <= m < i + 1 implies #[trigger] views(images@)[m] == views(entry@).take(i + 1)[m] by {
                    if m < i {
                        assert(views(before)[m] == views(entry@).take(i as int)[m]);
                    }
                }
                assert(views(images@) =~= views(entry@).take(i + 1));
            }
        }
        assert(views(entry@).take(entry.len() as int) == views(entry@));
        self.seen.insert(k, entry);
        proof {
            assert forall|k2: int, m: int|
                0 <= k2 < self.seen.len() && 0 <= m < self.seen@[k2].len() implies (#[trigger] self.seen@[k2]@[m])@.hash
                    == self.hashes@[k2]@ by {
                if k2 != k {
                    assert(self.seen@[k2] == mid.seen@[k2]);
                } else if m < mid.seen@[k as int].len() {
                    assert(self.seen@[k2]@[m] == mid.seen@[k as int]@[m]);
                }
            }
            assert(self.wf());
            self.lemma_seen_at(k as int);
            assert(views(self.seen@[k as int]@) =~= views(mid.seen@[k as int]@).push(img@));
            assert forall|h: Seq<char>| #[trigger] self.seen_with(h) == if h == img@.hash {
                old_self.seen_with(h).push(img@)
            } else {
                old_self.seen_with(h)
            } by {
                if h != img@.hash {
                    if exists|j: int| 0 <= j < mid.hashes.len() && (#[trigger] mid.hashes@[j])@ == h {
                        let j = choose|j: int| 0 <= j < mid.hashes.len() && (#[trigger] mid.hashes@[j])@ == h;
                        mid.lemma_seen_at(j);
                        self.lemma_seen_at(j);
                        assert(j != k);
                        assert(self.seen@[j] == mid.seen@[j]);
                    } else {
                        assert forall|j: int| 0 <= j < self.hashes.len() implies (#[trigger] self.hashes@[j])@ != h by {
                            assert(self.hashes@[j] == mid.hashes@[j]);
                        }
                    }
                    assert(mid.seen_with(h) == old_self.seen_with(h));
                }
            }
        }
        let ghost all = self.seen_with(img@.hash);
        if images.len() < 2 {
            return None;
        }
        assert(views(images@) == all);
        assert(all == old_self.seen_with(img@.hash).push(img@));
        assert forall|m: int| 0 <= m < images.len() implies area_fits(#[trigger] images@[m]@) by {
            assert(images@[m]@ == all[m]);
        }
        let mut total: u64 = 0;
        for i in 0..images.len()
            invariant
                views(images@) == all,
                sum_sizes(all) <= u64::MAX,
                total as nat == sum_sizes(all.take(i as int)),
        {
            proof {
                crate::matcher::lemma_sum_prefix(all, i + 1);
                assert(all.take(i + 1).drop_last() == all.take(i as int));
                assert(all[i as int] == images@[i as int]@);
            }
            total = total + images[i].size_bytes;
        }
        assert(all.take(images.len() as int) == all);
        sort_by_best(&mut images);
        proof {
            assert(all[0].hash == all[1].hash) by {
                assert(all[0] == self.seen@[k as int]@[0]@);
                assert(all[1] == self.seen@[k as int]@[1]@);
            }
            assert(crate::matcher::has_repeated_hash(all));
        }
        let confidence = confidence_label(true);
        Some(DupGroup { confidence, images, total_size: total })
    }
}

/// A file whose key no other file shares is in no candidate class.
pub proof fn lemma_unshared_key_excluded<T>(keys: Seq<Option<T>>, parts: Seq<Seq<usize>>, i: int)
    requires
        is_key_partition(keys, parts),
        0 <= i < keys.len(),
        forall|j: int| 0 <= j < keys.len() && j != i ==> keys[j] != keys[i],
    ensures
        forall|g: int| 0 <= g < parts.len() ==> !(#[trigger] parts[g]).contains(i as usize),
{
    assert forall|g: int| 0 <= g < parts.len() implies !(#[trigger] parts[g]).contains(i as usize) by {
        let p = parts[g];
        assert(key_class(keys, p));
        if p.contains(i as usize) {
            assert(keys[i] == keys[p[0] as int]);
            assert(p[0] < p[1]);
            let other: int = if p[0] as int == i { p[1] as int } else { p[0] as int };
            assert(p.contains(other as usize));
            assert(keys[other] == keys[p[0] as int]);
        }
    }
}

/// Different texts give different CSV fields, so each history line names
/// one path.
pub proof fn lemma_csv_escape_injective(s: Seq<char>, t: Seq<char>)
    requires
        spec_csv_escape(s) == spec_csv_escape(t),
    ensures
        s == t,
{
    let es = spec_csv_escape(s);
    assert(double_quotes(s) == es.subrange(1, es.len() - 1));
    assert(double_quotes(t) == es.subrange(1, es.len() - 1));
    lemma_double_quotes_injective(s, t);
}

proof fn lemma_double_quotes_injective(s: Seq<char>, t: Seq<char>)
    requires
        double_quotes(s) == double_quotes(t),
    ensures
        s == t,
    decreases s.len() + t.len(),
{
    if s.len() == 0 || t.len() == 0 {
        if s.len() > 0 {
            lemma_double_quotes_len(s);
        }
        if t.len() > 0 {
            lemma_double_quotes_len(t);
        }
        if s.len() == 0 && t.len() == 0 {
            assert(s =~= t);
        }
    } else {
        let ds = double_quotes(s.drop_last());
        let dt = double_quotes(t.drop_last());
        let d = double_quotes(s);
        if s.last() == '"' && t.last() == '"' {
            assert(d == ds + seq!['"', '"']);
            assert(d == dt + seq!['"', '"']);
            assert(ds == d.subrange(0, d.len() - 2));
            assert(dt == d.subrange(0, d.len() - 2));
            lemma_double_quotes_injective(s.drop_last(), t.drop_last());
        } else if s.last() != '"' && t.last() != '"' {
            assert(d == ds.push(s.last()));
            assert(d == dt.push(t.last()));
            assert(ds == d.drop_last());
            assert(dt == d.drop_last());
            assert(s.last() == d.last());
            assert(t.last() == d.last());
            lemma_double_quotes_injective(s.drop_last(), t.drop_last());
        } else if s.last() == '"' {
            assert(d.last() == '"');
            assert(double_quotes(t).last() == t.last());
        } else {
            assert(double_quotes(t).last() == '"');
            assert(d.last() == s.last());
        }
        assert(s == s.drop_last().push(s.last()));
        assert(t == t.drop_last().push(t.last()));
    }
}

proof fn lemma_double_quotes_len(s: Seq<char>)
    ensures
        double_quotes(s).len() >= s.len(),
    decreases s.len(),
{
    if s.len() > 0 {
        lemma_double_quotes_len(s.drop_last());
    }
}

} // verus!
