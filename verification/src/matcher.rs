use vstd::prelude::*;
use vstd::multiset::Multiset;
use crate::{ImageInfo, ImageView, DupGroup, DupGroupView, opt_string_view, as_opt_str};
use vstd::string::StringExecFns;
use crate::metadata::spec_signature;
use crate::hasher::{spec_hamming, hamming_distance, lemma_hamming_symmetric};
use crate::text::{decimal, lex_order, lemma_lex_basics, lemma_lex_trans, chars_of, compare_chars};

verus! {

/// The views of a sequence of image records.
pub open spec fn views(images: Seq<ImageInfo>) -> Seq<ImageView> {
    images.map_values(|im: ImageInfo| im@)
}

/// The metadata signature of an image record.
pub open spec fn image_signature(im: ImageView) -> Option<Seq<char>> {
    spec_signature(im.date_taken, im.modified, im.width, im.height, im.camera)
}

/// Two images are directly tied when they have the same content hash, when
/// both have a metadata signature and the signatures are equal, or, when
/// similar images are searched for, when their difference hashes are close.
pub open spec fn linked(opts: GroupOptions, a: ImageView, b: ImageView) -> bool {
    ||| a.hash == b.hash
    ||| image_signature(a) is Some && image_signature(a) == image_signature(b)
    ||| opts.buscar_similares && dhash_close(a.dhash, b.dhash, opts.dhash_umbral)
}

/// How images are tied besides their content hash and their signature: when
/// similar images are searched for, two images whose difference hashes are
/// both known and differ in at most `dhash_umbral` bits are tied too.
#[derive(Clone, Copy)]
pub struct GroupOptions {
    pub dhash_umbral: u32,
    pub buscar_similares: bool,
}

/// Both difference hashes are known and differ in at most `umbral` bits.
pub open spec fn dhash_close(a: Option<u64>, b: Option<u64>, umbral: u32) -> bool {
    a is Some && b is Some && spec_hamming(a->0, b->0) <= umbral
}

/// The options under which images are tied by content hash and signature
/// alone.
pub open spec fn exact_ties() -> GroupOptions {
    GroupOptions { dhash_umbral: 0, buscar_similares: false }
}

/// Step `k` of the index chain `p` ties two images.
pub open spec fn chain_step(s: Seq<ImageView>, opts: GroupOptions, p: Seq<int>, k: int) -> bool {
    linked(opts, s[p[k]], s[p[k + 1]])
}

/// `p` is a chain of indices of `s` from `i` to `j`, each tied to the next.
pub open spec fn chain_between(s: Seq<ImageView>, opts: GroupOptions, p: Seq<int>, i: int, j: int) -> bool {
    &&& p.len() >= 1
    &&& p[0] == i
    &&& p[p.len() - 1] == j
    &&& forall|k: int| 0 <= k < p.len() ==> 0 <= #[trigger] p[k] < s.len()
    &&& forall|k: int| 0 <= k < p.len() - 1 ==> #[trigger] chain_step(s, opts, p, k)
}

/// Images `i` and `j` of `s` end up in the same duplicate group: a chain of
/// ties leads from one to the other.
pub open spec fn connected(s: Seq<ImageView>, opts: GroupOptions, i: int, j: int) -> bool {
    exists|p: Seq<int>| #[trigger] chain_between(s, opts, p, i, j)
}

/// Being tied is symmetric.
pub proof fn lemma_linked_symmetric(opts: GroupOptions, a: ImageView, b: ImageView)
    ensures
        linked(opts, a, b) == linked(opts, b, a),
{
    if a.dhash is Some && b.dhash is Some {
        lemma_hamming_symmetric(a.dhash->0, b.dhash->0);
    }
}

/// Every image is connected to itself.
pub proof fn lemma_connected_refl(s: Seq<ImageView>, opts: GroupOptions, i: int)
    requires
        0 <= i < s.len(),
    ensures
        connected(s, opts, i, i),
{
    let p = seq![i];
    assert(chain_between(s, opts, p, i, i));
}

/// Tied images are connected.
pub proof fn lemma_connected_link(s: Seq<ImageView>, opts: GroupOptions, i: int, j: int)
    requires
        0 <= i < s.len(),
        0 <= j < s.len(),
        linked(opts, s[i], s[j]),
    ensures
        connected(s, opts, i, j),
{
    let p = seq![i, j];
    assert(chain_step(s, opts, p, 0));
    assert(chain_between(s, opts, p, i, j));
}

/// Connection is transitive.
pub proof fn lemma_connected_trans(s: Seq<ImageView>, opts: GroupOptions, i: int, j: int, k: int)
    requires
        connected(s, opts, i, j),
        connected(s, opts, j, k),
    ensures
        connected(s, opts, i, k),
{
    let p1 = choose|p: Seq<int>| chain_between(s, opts, p, i, j);
    let p2 = choose|p: Seq<int>| chain_between(s, opts, p, j, k);
    let p = p1 + p2.drop_first();
    assert forall|m: int| 0 <= m < p.len() implies 0 <= #[trigger] p[m] < s.len() by {
        if m >= p1.len() {
            assert(p[m] == p2[m - p1.len() + 1]);
        }
    }
    assert forall|m: int| 0 <= m < p.len() - 1 implies #[trigger] chain_step(s, opts, p, m) by {
        if m < p1.len() - 1 {
            assert(chain_step(s, opts, p1, m));
        } else if m == p1.len() - 1 {
            assert(chain_step(s, opts, p2, 0));
        } else {
            assert(chain_step(s, opts, p2, m - p1.len() + 1));
        }
    }
    assert(chain_between(s, opts, p, i, k));
}

/// Connection is symmetric.
pub proof fn lemma_connected_sym(s: Seq<ImageView>, opts: GroupOptions, i: int, j: int)
    requires
        connected(s, opts, i, j),
    ensures
        connected(s, opts, j, i),
{
    let p1 = choose|p: Seq<int>| chain_between(s, opts, p, i, j);
    let n = p1.len();
    let p = Seq::new(n, |m: int| p1[n - 1 - m]);
    assert forall|m: int| 0 <= m < p.len() implies 0 <= #[trigger] p[m] < s.len() by {
        assert(p1[n - 1 - m] == p[m]);
    }
    assert forall|m: int| 0 <= m < p.len() - 1 implies #[trigger] chain_step(s, opts, p, m) by {
        assert(chain_step(s, opts, p1, n - 2 - m));
        lemma_linked_symmetric(opts, s[p1[n - 2 - m]], s[p1[n - 1 - m]]);
    }
    assert(chain_between(s, opts, p, j, i));
}

/// A labelling under which tied images carry equal labels gives every chain
/// one label from end to end.
proof fn lemma_chain_keeps_label(s: Seq<ImageView>, opts: GroupOptions, label: Seq<usize>, p: Seq<int>, i: int, j: int)
    requires
        label.len() == s.len(),
        forall|a: int, b: int|
            0 <= a < s.len() && 0 <= b < s.len() && #[trigger] linked(opts, s[a], s[b]) ==> label[a] == label[b],
        chain_between(s, opts, p, i, j),
    ensures
        label[i] == label[j],
    decreases p.len(),
{
    if p.len() > 1 {
        let q = p.drop_last();
        assert forall|k: int| 0 <= k < q.len() - 1 implies #[trigger] chain_step(s, opts, q, k) by {
            assert(chain_step(s, opts, p, k));
        }
        assert(chain_between(s, opts, q, i, q[q.len() - 1]));
        lemma_chain_keeps_label(s, opts, label, q, i, q[q.len() - 1]);
        assert(chain_step(s, opts, p, p.len() - 2));
    }
}

/// A labelling of the images of `s` by representatives: each label is the
/// index of an image that carries its own index as label and is connected
/// to every image that carries it.
pub open spec fn labels_ok(s: Seq<ImageView>, opts: GroupOptions, label: Seq<usize>) -> bool {
    &&& label.len() == s.len()
    &&& forall|k: int| 0 <= k < label.len() ==> #[trigger] label[k] < label.len()
    &&& forall|k: int| 0 <= k < label.len() ==> label[label[k] as int] == #[trigger] label[k]
    &&& forall|k: int| 0 <= k < label.len() ==> connected(s, opts, k, #[trigger] label[k] as int)
}

/// The metadata signature of an image record.
fn signature(im: &ImageInfo) -> (r: Option<String>)
    ensures
        opt_string_view(r) == image_signature(im@),
{
    crate::metadata::signature(
        as_opt_str(&im.date_taken),
        as_opt_str(&im.modified),
        im.width,
        im.height,
        as_opt_str(&im.camera),
    )
}

/// The metadata signature of every image, in order.
fn signatures(images: &Vec<ImageInfo>) -> (sigs: Vec<Option<String>>)
    ensures
        sigs.len() == images.len(),
        forall|k: int| 0 <= k < sigs.len() ==> opt_string_view(#[trigger] sigs[k]) == image_signature(images[k]@),
{
    let mut sigs: Vec<Option<String>> = Vec::new();
    for i in 0..images.len()
        invariant
            sigs.len() == i,
            forall|k: int| 0 <= k < sigs.len() ==> opt_string_view(#[trigger] sigs[k]) == image_signature(images[k]@),
    {
        let sig = signature(&images[i]);
        sigs.push(sig);
    }
    sigs
}

/// Whether images `i` and `j` are tied, given their signatures.
fn tied(images: &Vec<ImageInfo>, opts: GroupOptions, sigs: &Vec<Option<String>>, i: usize, j: usize) -> (r: bool)
    requires
        i < images.len(),
        j < images.len(),
        sigs.len() == images.len(),
        forall|k: int| 0 <= k < sigs.len() ==> opt_string_view(#[trigger] sigs[k]) == image_signature(images[k]@),
    ensures
        r == linked(opts, images[i as int]@, images[j as int]@),
{
    assert(opt_string_view(sigs[i as int]) == image_signature(images[i as int]@));
    assert(opt_string_view(sigs[j as int]) == image_signature(images[j as int]@));
    if images[i].hash == images[j].hash {
        return true;
    }
    let same_signature = match (&sigs[i], &sigs[j]) {
        (Some(a), Some(b)) => *a == *b,
        _ => false,
    };
    if same_signature {
        return true;
    }
    if !opts.buscar_similares {
        return false;
    }
    match (images[i].dhash, images[j].dhash) {
        (Some(a), Some(b)) => hamming_distance(a, b) <= opts.dhash_umbral,
        _ => false,
    }
}

/// Gives the class of `b` the label of the class of `a`, for tied `a` and `b`.
fn merge(label: &mut Vec<usize>, opts: GroupOptions, Ghost(s): Ghost<Seq<ImageView>>, a: usize, b: usize)
    requires
        labels_ok(s, opts, old(label)@),
        a < s.len(),
        b < s.len(),
        linked(opts, s[a as int], s[b as int]),
    ensures
        labels_ok(s, opts, final(label)@),
        final(label)@[a as int] == final(label)@[b as int],
        forall|x: int, y: int|
            0 <= x < s.len() && 0 <= y < s.len() && old(label)@[x] == old(label)@[y]
                ==> final(label)@[x] == final(label)@[y],
{
    let la = label[a];
    let lb = label[b];
    if la == lb {
        return;
    }
    let ghost old_l = label@;
    let n = label.len();
    for k in 0..n
        invariant
            label.len() == n,
            n == old_l.len(),
            old_l.len() == s.len(),
            la == old_l[a as int],
            lb == old_l[b as int],
            forall|m: int| 0 <= m < k ==> #[trigger] label@[m] == (if old_l[m] == lb { la } else { old_l[m] }),
            forall|m: int| k <= m < n ==> #[trigger] label@[m] == old_l[m],
    {
        if label[k] == lb {
            label.set(k, la);
        }
    }
    proof {
        let new_l = label@;
        assert forall|m: int| 0 <= m < n implies #[trigger] new_l[m] == (if old_l[m] == lb { la } else { old_l[m] }) by {
        }
        assert(old_l[la as int] == la);
        assert(old_l[lb as int] == lb);
        assert forall|m: int| 0 <= m < new_l.len() implies #[trigger] new_l[m] < new_l.len() by {
            assert(old_l[m] < n);
        }
        assert forall|m: int| 0 <= m < new_l.len() implies new_l[new_l[m] as int] == #[trigger] new_l[m] by {
            assert(old_l[m] < n);
            assert(old_l[old_l[m] as int] == old_l[m]);
            assert(new_l[old_l[m] as int] == (if old_l[old_l[m] as int] == lb { la } else { old_l[old_l[m] as int] }));
            assert(new_l[la as int] == (if old_l[la as int] == lb { la } else { old_l[la as int] }));
        }
        assert forall|m: int| 0 <= m < new_l.len() implies connected(s, opts, m, #[trigger] new_l[m] as int) by {
            assert(connected(s, opts, m, old_l[m] as int));
            if old_l[m] == lb {
                assert(connected(s, opts, b as int, lb as int));
                lemma_connected_sym(s, opts, b as int, lb as int);
                lemma_connected_trans(s, opts, m, lb as int, b as int);
                lemma_linked_symmetric(opts, s[a as int], s[b as int]);
                lemma_connected_link(s, opts, b as int, a as int);
                lemma_connected_trans(s, opts, m, b as int, a as int);
                assert(connected(s, opts, a as int, la as int));
                lemma_connected_trans(s, opts, m, a as int, la as int);
            }
        }
    }
}

/// Labels every image by a representative of its duplicate class: two images
/// carry the same label exactly when they are connected.
fn component_labels(images: &Vec<ImageInfo>, opts: GroupOptions, sigs: &Vec<Option<String>>) -> (label: Vec<usize>)
    requires
        sigs.len() == images.len(),
        forall|k: int| 0 <= k < sigs.len() ==> opt_string_view(#[trigger] sigs[k]) == image_signature(images[k]@),
    ensures
        labels_ok(views(images@), opts, label@),
        forall|a: int, b: int|
            0 <= a < images.len() && 0 <= b < images.len()
                ==> (label@[a] == label@[b]) == connected(views(images@), opts, a, b),
{
    let ghost s = views(images@);
    let n = images.len();
    assert(s.len() == n);
    assert forall|k: int| 0 <= k < n implies s[k] == images@[k]@ by {}
    let mut label: Vec<usize> = Vec::new();
    for i in 0..n
        invariant
            n == images.len(),
            s == views(images@),
            label.len() == i,
            forall|k: int| 0 <= k < i ==> #[trigger] label@[k] == k,
    {
        label.push(i);
    }
    assert forall|k: int| 0 <= k < n implies connected(s, opts, k, #[trigger] label@[k] as int) by {
        lemma_connected_refl(s, opts, k);
    }
    for i in 0..n
        invariant
            n == images.len(),
            s == views(images@),
            forall|k: int| 0 <= k < n ==> s[k] == #[trigger] images@[k]@,
            sigs.len() == images.len(),
            forall|k: int| 0 <= k < sigs.len() ==> opt_string_view(#[trigger] sigs[k]) == image_signature(images[k]@),
            labels_ok(s, opts, label@),
            forall|x: int, y: int|
                0 <= y < x < i && #[trigger] linked(opts, s[x], s[y]) ==> label@[x] == label@[y],
    {
        for j in 0..i
            invariant
                n == images.len(),
                i < n,
                s == views(images@),
                forall|k: int| 0 <= k < n ==> s[k] == #[trigger] images@[k]@,
                sigs.len() == images.len(),
                forall|k: int| 0 <= k < sigs.len() ==> opt_string_view(#[trigger] sigs[k]) == image_signature(images[k]@),
                labels_ok(s, opts, label@),
                forall|x: int, y: int|
                    0 <= y < x < i && #[trigger] linked(opts, s[x], s[y]) ==> label@[x] == label@[y],
                forall|y: int| 0 <= y < j && #[trigger] linked(opts, s[i as int], s[y]) ==> label@[i as int] == label@[y],
        {
            if tied(images, opts, sigs, i, j) {
                merge(&mut label, opts, Ghost(s), i, j);
            }
        }
    }
    proof {
        assert forall|a: int, b: int|
            0 <= a < n && 0 <= b < n && #[trigger] linked(opts, s[a], s[b]) implies label@[a] == label@[b] by {
            lemma_linked_symmetric(opts, s[a], s[b]);
            if b < a {
            } else if a < b {
                assert(linked(opts, s[b], s[a]));
            }
        }
        assert forall|a: int, b: int|
            0 <= a < n && 0 <= b < n implies (label@[a] == label@[b]) == connected(s, opts, a, b) by {
            if connected(s, opts, a, b) {
                let p = choose|p: Seq<int>| chain_between(s, opts, p, a, b);
                lemma_chain_keeps_label(s, opts, label@, p, a, b);
            }
            if label@[a] == label@[b] {
                assert(connected(s, opts, a, label@[a] as int));
                assert(connected(s, opts, b, label@[b] as int));
                lemma_connected_sym(s, opts, b, label@[b] as int);
                lemma_connected_trans(s, opts, a, label@[a] as int, b);
            }
        }
    }
    label
}

/// `p` lists, in increasing order, exactly the images connected to its
/// first member.
pub open spec fn is_component(s: Seq<ImageView>, opts: GroupOptions, p: Seq<usize>) -> bool {
    &&& p.len() >= 1
    &&& forall|k: int| 0 <= k < p.len() ==> #[trigger] p[k] < s.len()
    &&& forall|k1: int, k2: int| 0 <= k1 < k2 < p.len() ==> p[k1] < p[k2]
    &&& forall|j: int| 0 <= j < s.len() ==> (#[trigger] connected(s, opts, p[0] as int, j) <==> p.contains(j as usize))
}

/// `parts` lists every duplicate class of `s` with two or more images, once
/// each: the classes are whole, pairwise disjoint, and every image connected
/// to another one is in one of them.
pub open spec fn is_duplicate_partition(s: Seq<ImageView>, opts: GroupOptions, parts: Seq<Seq<usize>>) -> bool {
    &&& forall|g: int| 0 <= g < parts.len() ==> (#[trigger] parts[g]).len() >= 2 && is_component(s, opts, parts[g])
    &&& forall|g1: int, g2: int, k: int|
        #![trigger parts[g1][k], parts[g2]]
        0 <= g1 < parts.len() && 0 <= g2 < parts.len() && g1 != g2 && 0 <= k < parts[g1].len()
            ==> !parts[g2].contains(parts[g1][k])
    &&& forall|i: int, j: int|
        0 <= i < s.len() && 0 <= j < s.len() && i != j && #[trigger] connected(s, opts, i, j)
            ==> exists|g: int| 0 <= g < parts.len() && #[trigger] parts[g].contains(i as usize)
}

/// The views of a list of index lists.
pub open spec fn parts_view(parts: Seq<Vec<usize>>) -> Seq<Seq<usize>> {
    parts.map_values(|v: Vec<usize>| v@)
}

/// The indices, in increasing order, of the images labelled `r`.
fn class_members(label: &Vec<usize>, r: usize) -> (m: Vec<usize>)
    ensures
        forall|k: int| 0 <= k < m.len() ==> #[trigger] m@[k] < label.len(),
        forall|k1: int, k2: int| 0 <= k1 < k2 < m.len() ==> m@[k1] < m@[k2],
        forall|k: int| 0 <= k < label.len() ==> (label@[k] == r <==> m@.contains(k as usize)),
{
    let mut m: Vec<usize> = Vec::new();
    for i in 0..label.len()
        invariant
            forall|k: int| 0 <= k < m.len() ==> #[trigger] m@[k] < i,
            forall|k1: int, k2: int| 0 <= k1 < k2 < m.len() ==> m@[k1] < m@[k2],
            forall|k: int| 0 <= k < i ==> (label@[k] == r <==> m@.contains(k as usize)),
    {
        let ghost before = m@;
        if label[i] == r {
            m.push(i);
            assert forall|k: int| 0 <= k < i implies (label@[k] == r <==> m@.contains(k as usize)) by {
                if before.contains(k as usize) {
                    let w = choose|w: int| 0 <= w < before.len() && before[w] == k as usize;
                    assert(m@[w] == k as usize);
                }
                if m@.contains(k as usize) {
                    let w = choose|w: int| 0 <= w < m@.len() && m@[w] == k as usize;
                    assert(w < before.len());
                    assert(before[w] == k as usize);
                }
            }
            assert(m@[m@.len() - 1] == i);
        } else {
            assert(!m@.contains(i as usize));
        }
    }
    m
}

/// The duplicate classes of `images` with two or more members.
fn duplicate_classes(images: &Vec<ImageInfo>, opts: GroupOptions) -> (parts: Vec<Vec<usize>>)
    ensures
        is_duplicate_partition(views(images@), opts, parts_view(parts@)),
{
    let sigs = signatures(images);
    let label = component_labels(images, opts, &sigs);
    let ghost s = views(images@);
    let n = images.len();
    let mut parts: Vec<Vec<usize>> = Vec::new();
    let ghost mut roots: Seq<usize> = Seq::empty();
    for r in 0..n
        invariant
            n == images.len(),
            s == views(images@),
            s.len() == n,
            labels_ok(s, opts, label@),
            forall|a: int, b: int| 0 <= a < n && 0 <= b < n ==> (label@[a] == label@[b]) == connected(s, opts, a, b),
            roots.len() == parts.len(),
            forall|g: int| 0 <= g < roots.len() ==> #[trigger] roots[g] < r,
            forall|g1: int, g2: int| 0 <= g1 < g2 < roots.len() ==> roots[g1] < roots[g2],
            forall|g: int| 0 <= g < parts.len() ==> (#[trigger] parts@[g])@.len() >= 2,
            forall|g: int| 0 <= g < parts.len() ==> is_component(s, opts, (#[trigger] parts@[g])@),
            forall|g: int, k: int| 0 <= g < parts.len() && 0 <= k < n
                ==> (label@[k] == roots[g] <==> #[trigger] parts@[g]@.contains(k as usize)),
            forall|i: int, j: int|
                0 <= i < n && 0 <= j < n && i != j && label@[i] == label@[j] && label@[i] < r
                    ==> exists|g: int| 0 <= g < parts.len() && #[trigger] parts@[g]@.contains(i as usize),
    {
        if label[r] == r {
            let members = class_members(&label, r);
            if members.len() >= 2 {
                proof {
                    let p = members@;
                    let x = p[0] as int;
                    assert(p.contains(p[0]));
                    assert(label@[x] == r);
                    assert forall|j: int| 0 <= j < s.len() implies (#[trigger] connected(s, opts, x, j) <==> p.contains(j as usize)) by {
                    }
                    assert(is_component(s, opts, p));
                }
                let ghost old_parts = parts@;
                parts.push(members);
                proof {
                    roots = roots.push(r);
                    assert forall|g: int| 0 <= g < parts.len() implies is_component(s, opts, (#[trigger] parts@[g])@) by {
                        if g < old_parts.len() {
                            assert(parts@[g] == old_parts[g]);
                        }
                    }
                    assert forall|i: int, j: int|
                        0 <= i < n && 0 <= j < n && i != j && label@[i] == label@[j] && label@[i] < r + 1
                            implies exists|g: int| 0 <= g < parts.len() && #[trigger] parts@[g]@.contains(i as usize) by {
                        if label@[i] < r {
                            let g = choose|g: int| 0 <= g < old_parts.len() && #[trigger] old_parts[g]@.contains(i as usize);
                            assert(parts@[g] == old_parts[g]);
                        } else {
                            assert(parts@[parts.len() - 1]@.contains(i as usize));
                        }
                    }
                }
            } else {
                proof {
                    assert forall|i: int, j: int|
                        0 <= i < n && 0 <= j < n && i != j && label@[i] == label@[j] && label@[i] < r + 1
                            implies exists|g: int| 0 <= g < parts.len() && #[trigger] parts@[g]@.contains(i as usize) by {
                        if label@[i] == r {
                            assert(members@.contains(i as usize));
                            assert(members@.contains(j as usize));
                            let wi = choose|w: int| 0 <= w < members@.len() && members@[w] == i as usize;
                            let wj = choose|w: int| 0 <= w < members@.len() && members@[w] == j as usize;
                        }
                    }
                }
            }
        } else {
            proof {
                assert forall|i: int, j: int|
                    0 <= i < n && 0 <= j < n && i != j && label@[i] == label@[j] && label@[i] < r + 1
                        implies exists|g: int| 0 <= g < parts.len() && #[trigger] parts@[g]@.contains(i as usize) by {
                    if label@[i] == r {
                        assert(label@[label@[i] as int] == label@[i]);
                    }
                }
            }
        }
    }
    proof {
        let pv = parts_view(parts@);
        assert forall|g: int| 0 <= g < pv.len() implies (#[trigger] pv[g]).len() >= 2 && is_component(s, opts, pv[g]) by {
            assert(pv[g] == parts@[g]@);
        }
        assert forall|g1: int, g2: int, k: int|
            #![trigger pv[g1][k], pv[g2]]
            0 <= g1 < pv.len() && 0 <= g2 < pv.len() && g1 != g2 && 0 <= k < pv[g1].len()
                implies !pv[g2].contains(pv[g1][k]) by {
            assert(pv[g1] == parts@[g1]@);
            assert(pv[g2] == parts@[g2]@);
            let x = pv[g1][k] as int;
            assert(x < n);
            assert(parts@[g1]@.contains(x as usize));
            assert(label@[x] == roots[g1]);
            if pv[g2].contains(x as usize) {
                assert(label@[x] == roots[g2]);
                if g1 < g2 {
                    assert(roots[g1] < roots[g2]);
                } else {
                    assert(roots[g2] < roots[g1]);
                }
            }
        }
        assert forall|i: int, j: int|
            0 <= i < s.len() && 0 <= j < s.len() && i != j && #[trigger] connected(s, opts, i, j)
                implies exists|g: int| 0 <= g < pv.len() && #[trigger] pv[g].contains(i as usize) by {
            assert(label@[i] < n);
            let g = choose|g: int| 0 <= g < parts.len() && #[trigger] parts@[g]@.contains(i as usize);
            assert(pv[g] == parts@[g]@);
        }
    }
    parts
}

/// Pixel count of an image, a missing dimension counting as zero.
pub open spec fn area(im: ImageView) -> nat {
    (if im.width is Some { im.width->0 as nat } else { 0nat }) * (if im.height is Some {
        im.height->0 as nat
    } else {
        0nat
    })
}

/// The pixel count of the image fits in 32 bits.
pub open spec fn area_fits(im: ImageView) -> bool {
    area(im) <= u32::MAX
}

/// Three-way comparison of optional strings: a missing one comes first.
pub open spec fn opt_lex(a: Option<Seq<char>>, b: Option<Seq<char>>) -> int {
    match (a, b) {
        (None, None) => 0,
        (None, Some(_)) => -1,
        (Some(_), None) => 1,
        (Some(x), Some(y)) => lex_order(x, y),
    }
}

/// The order in which the images of a group are listed, best first: more
/// pixels first, then the earlier date taken (none before any), then the
/// path. Negative when `a` comes before `b`.
pub open spec fn best_order(a: ImageView, b: ImageView) -> int {
    if area(a) > area(b) {
        -1
    } else if area(a) < area(b) {
        1
    } else if opt_lex(a.date_taken, b.date_taken) != 0 {
        opt_lex(a.date_taken, b.date_taken)
    } else {
        lex_order(a.path, b.path)
    }
}

/// The images are listed best first.
pub open spec fn best_first(v: Seq<ImageView>) -> bool {
    forall|i: int, j: int| 0 <= i < j < v.len() ==> best_order(#[trigger] v[i], #[trigger] v[j]) <= 0
}

proof fn lemma_opt_lex(a: Option<Seq<char>>, b: Option<Seq<char>>, c: Option<Seq<char>>)
    ensures
        opt_lex(a, b) == -opt_lex(b, a),
        -1 <= opt_lex(a, b) <= 1,
        opt_lex(a, b) == 0 <==> a == b,
        opt_lex(a, b) <= 0 && opt_lex(b, c) <= 0 ==> opt_lex(a, c) <= 0,
        opt_lex(a, b) <= 0 && opt_lex(b, c) <= 0 && (opt_lex(a, b) < 0 || opt_lex(b, c) < 0) ==> opt_lex(a, c) < 0,
{
    if a is Some && b is Some {
        lemma_lex_basics(a->0, b->0);
    }
    if b is Some && c is Some {
        lemma_lex_basics(b->0, c->0);
    }
    if a is Some && c is Some {
        lemma_lex_basics(a->0, c->0);
    }
    if a is Some && b is Some && c is Some {
        if lex_order(a->0, b->0) <= 0 && lex_order(b->0, c->0) <= 0 {
            lemma_lex_trans(a->0, b->0, c->0);
        }
    }
}

/// The listing order is antisymmetric and transitive.
pub proof fn lemma_best_order(a: ImageView, b: ImageView, c: ImageView)
    ensures
        best_order(a, b) == -best_order(b, a),
        -1 <= best_order(a, b) <= 1,
        best_order(a, b) <= 0 && best_order(b, c) <= 0 ==> best_order(a, c) <= 0,
        best_order(a, b) <= 0 && best_order(b, c) <= 0 && (best_order(a, b) < 0 || best_order(b, c) < 0)
            ==> best_order(a, c) < 0,
{
    lemma_opt_lex(a.date_taken, b.date_taken, c.date_taken);
    lemma_opt_lex(b.date_taken, a.date_taken, c.date_taken);
    lemma_lex_basics(a.path, b.path);
    lemma_lex_basics(b.path, c.path);
    lemma_lex_basics(a.path, c.path);
    if lex_order(a.path, b.path) <= 0 && lex_order(b.path, c.path) <= 0 {
        lemma_lex_trans(a.path, b.path, c.path);
    }
}

/// The characters of an optional string.
fn opt_chars(o: &Option<String>) -> (r: Option<Vec<char>>)
    ensures
        match r {
            Some(v) => opt_string_view(*o) == Some(v@),
            None => opt_string_view(*o) is None,
        },
{
    match o {
        Some(s) => Some(chars_of(s.as_str())),
        None => None,
    }
}

/// Pixel count of an image.
fn area_of(im: &ImageInfo) -> (r: u64)
    requires
        area_fits(im@),
    ensures
        r as nat == area(im@),
{
    let w: u32 = match im.width {
        Some(w) => w,
        None => 0,
    };
    let h: u32 = match im.height {
        Some(h) => h,
        None => 0,
    };
    assert(w as nat * h as nat == area(im@));
    (w * h) as u64
}

/// Compares two images in the listing order.
fn best_order_of(a: &ImageInfo, b: &ImageInfo) -> (r: i8)
    requires
        area_fits(a@),
        area_fits(b@),
    ensures
        r as int == best_order(a@, b@),
{
    let aa = area_of(a);
    let ab = area_of(b);
    if aa > ab {
        return -1;
    }
    if aa < ab {
        return 1;
    }
    let da = opt_chars(&a.date_taken);
    let db = opt_chars(&b.date_taken);
    let d: i8 = match (&da, &db) {
        (None, None) => 0,
        (None, Some(_)) => -1,
        (Some(_), None) => 1,
        (Some(x), Some(y)) => compare_chars(x.as_slice(), y.as_slice()),
    };
    if d != 0 {
        return d;
    }
    let pa = chars_of(a.path.as_str());
    let pb = chars_of(b.path.as_str());
    compare_chars(pa.as_slice(), pb.as_slice())
}

/// `new` lists the images of `old`, image `k` of `new` being image `perm[k]`
/// of `old`, each once, and images that the listing order ties keep their
/// order from `old`.
pub open spec fn stable_permutation(old: Seq<ImageView>, new: Seq<ImageView>, perm: Seq<int>) -> bool {
    &&& perm.len() == new.len()
    &&& new.len() == old.len()
    &&& forall|k: int| 0 <= k < perm.len() ==> 0 <= #[trigger] perm[k] < old.len() && new[k] == old[perm[k]]
    &&& forall|k1: int, k2: int| 0 <= k1 < k2 < perm.len() ==> #[trigger] perm[k1] != #[trigger] perm[k2]
    &&& forall|i: int, j: int|
        0 <= i < j < new.len() && best_order(#[trigger] new[i], #[trigger] new[j]) == 0 ==> perm[i] < perm[j]
}

/// Lists the images of a group best first: more pixels first, then the
/// earlier date taken, then the path; images tied on all three keep their
/// order.
pub fn sort_by_best(images: &mut Vec<ImageInfo>)
    requires
        forall|k: int| 0 <= k < old(images).len() ==> area_fits(#[trigger] old(images)@[k]@),
    ensures
        views(final(images)@).to_multiset() == views(old(images)@).to_multiset(),
        exists|perm: Seq<int>| #[trigger] stable_permutation(views(old(images)@), views(final(images)@), perm),
        best_first(views(final(images)@)),
        forall|k: int| 0 <= k < final(images).len() ==> area_fits(#[trigger] final(images)@[k]@),
{
    broadcast use vstd::seq_lib::group_to_multiset_ensures, vstd::multiset::group_multiset_axioms;
    let ghost orig = views(images@);
    let ghost n = orig.len();
    let ghost mut perm: Seq<int> = Seq::empty();
    let mut out: Vec<ImageInfo> = Vec::new();
    assert(views(images@) == orig.subrange(0, n as int));
    assert(views(out@).to_multiset() =~= Multiset::empty()) by {
        assert(views(out@) =~= Seq::<ImageView>::empty());
        assert(views(out@).to_multiset().len() == 0);
    }
    while images.len() > 0
        invariant
            views(out@).to_multiset().add(views(images@).to_multiset()) == orig.to_multiset(),
            best_first(views(out@)),
            forall|k: int| 0 <= k < out.len() ==> area_fits(#[trigger] out@[k]@),
            forall|k: int| 0 <= k < images.len() ==> area_fits(#[trigger] images@[k]@),
            n == orig.len(),
            out.len() + images.len() == n,
            views(images@) == orig.subrange(out.len() as int, n as int),
            perm.len() == out.len(),
            forall|k: int| 0 <= k < perm.len() ==> 0 <= #[trigger] perm[k] < out.len() && views(out@)[k] == orig[perm[k]],
            forall|k1: int, k2: int| 0 <= k1 < k2 < perm.len() ==> #[trigger] perm[k1] != #[trigger] perm[k2],
            forall|i: int, j: int|
                0 <= i < j < out.len() && best_order(#[trigger] views(out@)[i], #[trigger] views(out@)[j]) == 0
                    ==> perm[i] < perm[j],
        decreases images.len(),
    {
        let ghost before_in = images@;
        let ghost t = out.len() as int;
        let x = images.remove(0);
        assert(views(images@) =~= views(before_in).remove(0));
        assert(area_fits(before_in[0]@));
        let mut pos: usize = 0;
        while pos < out.len() && best_order_of(&x, &out[pos]) >= 0
            invariant
                pos <= out.len(),
                area_fits(x@),
                forall|k: int| 0 <= k < out.len() ==> area_fits(#[trigger] out@[k]@),
                forall|q: int| 0 <= q < pos ==> best_order(x@, #[trigger] out@[q]@) >= 0,
            decreases out.len() - pos,
        {
            pos = pos + 1;
        }
        let ghost before_out = out@;
        let ghost before_perm = perm;
        out.insert(pos, x);
        proof {
            let vo = views(before_out);
            let vn = views(out@);
            assert(vn =~= vo.insert(pos as int, x@));
            assert(x@ == orig[t]) by {
                assert(views(before_in)[0] == orig.subrange(t, n as int)[0]);
            }
            assert(views(images@) =~= orig.subrange(t + 1, n as int));
            perm = before_perm.insert(pos as int, t);
            assert forall|k: int| 0 <= k < perm.len() implies 0 <= #[trigger] perm[k] < out.len() && views(out@)[k] == orig[perm[k]] by {
                if k < pos {
                    assert(perm[k] == before_perm[k]);
                    assert(vn[k] == vo[k]);
                } else if k > pos {
                    assert(perm[k] == before_perm[k - 1]);
                    assert(vn[k] == vo[k - 1]);
                }
            }
            assert forall|k1: int, k2: int| 0 <= k1 < k2 < perm.len() implies #[trigger] perm[k1] != #[trigger] perm[k2] by {
                if k1 < pos && k2 < pos {
                } else if k1 > pos {
                    assert(perm[k1] == before_perm[k1 - 1] && perm[k2] == before_perm[k2 - 1]);
                } else if k1 < pos && k2 > pos {
                    assert(perm[k1] == before_perm[k1] && perm[k2] == before_perm[k2 - 1]);
                } else if k1 == pos {
                    assert(perm[k2] == before_perm[k2 - 1]);
                } else {
                    assert(perm[k1] == before_perm[k1]);
                }
            }
            assert forall|i: int, j: int|
                0 <= i < j < out.len() && best_order(#[trigger] vn[i], #[trigger] vn[j]) == 0 implies perm[i] < perm[j] by {
                if j < pos {
                    assert(vn[i] == vo[i] && vn[j] == vo[j]);
                    assert(perm[i] == before_perm[i] && perm[j] == before_perm[j]);
                } else if i > pos {
                    assert(vn[i] == vo[i - 1] && vn[j] == vo[j - 1]);
                    assert(perm[i] == before_perm[i - 1] && perm[j] == before_perm[j - 1]);
                } else if i < pos && j > pos {
                    assert(vn[i] == vo[i] && vn[j] == vo[j - 1]);
                    assert(perm[i] == before_perm[i] && perm[j] == before_perm[j - 1]);
                } else if i == pos {
                    assert(vn[j] == vo[j - 1]);
                    assert(best_order(x@, vo[pos as int]) < 0);
                    lemma_best_order(x@, vo[pos as int], vo[j - 1]);
                    if j - 1 > pos {
                        assert(best_order(vo[pos as int], vo[j - 1]) <= 0);
                    }
                } else {
                    assert(perm[i] == before_perm[i]);
                    assert(perm[j] == t);
                }
            }
            assert forall|i: int, j: int| 0 <= i < j < vn.len() implies best_order(#[trigger] vn[i], #[trigger] vn[j]) <= 0 by {
                if j < pos {
                    assert(vn[i] == vo[i] && vn[j] == vo[j]);
                } else if i > pos {
                    assert(vn[i] == vo[i - 1] && vn[j] == vo[j - 1]);
                } else if i < pos && j > pos {
                    assert(vn[i] == vo[i] && vn[j] == vo[j - 1]);
                } else if i == pos {
                    assert(vn[j] == vo[j - 1]);
                    assert(best_order(x@, vo[pos as int]) < 0);
                    lemma_best_order(x@, vo[pos as int], vo[j - 1]);
                    if j - 1 > pos {
                        assert(best_order(vo[pos as int], vo[j - 1]) <= 0);
                    }
                } else {
                    assert(vn[i] == vo[i]);
                    assert(before_out[i]@ == vo[i]);
                    assert(best_order(x@, vo[i]) >= 0);
                    lemma_best_order(x@, vo[i], vo[i]);
                }
            }
            vstd::seq_lib::to_multiset_insert(vo, pos as int, x@);
            vstd::seq_lib::to_multiset_remove(views(before_in), 0);
            assert(views(before_in)[0] == x@);
            assert(views(before_in).contains(x@));
            vstd::seq_lib::to_multiset_contains(views(before_in), x@);
            assert(views(before_in).to_multiset().count(x@) > 0);
            assert(views(out@).to_multiset().add(views(images@).to_multiset()) =~= vo.to_multiset().add(
                views(before_in).to_multiset(),
            ));
            assert(views(before_in)[0] == x@);
            assert forall|k: int| 0 <= k < out.len() implies area_fits(#[trigger] out@[k]@) by {
                if k < pos {
                    assert(out@[k] == before_out[k]);
                } else if k > pos {
                    assert(out@[k] == before_out[k - 1]);
                }
            }
        }
    }
    proof {
        assert(views(images@) =~= Seq::<ImageView>::empty());
        assert(views(images@).to_multiset().len() == 0);
        assert(views(images@).to_multiset() =~= Multiset::empty());
        assert(stable_permutation(orig, views(out@), perm));
    }
    *images = out;
}

/// The images that an index list names, in its order.
pub open spec fn members(s: Seq<ImageView>, p: Seq<usize>) -> Seq<ImageView> {
    p.map_values(|k: usize| s[k as int])
}

/// Total size in bytes of a list of images.
pub open spec fn sum_sizes(v: Seq<ImageView>) -> nat
    decreases v.len(),
{
    if v.len() == 0 {
        0
    } else {
        sum_sizes(v.drop_last()) + v.last().size_bytes as nat
    }
}

/// Two images of the list have the same content hash.
pub open spec fn has_repeated_hash(v: Seq<ImageView>) -> bool {
    exists|i: int, j: int| 0 <= i < j < v.len() && #[trigger] v[i].hash == #[trigger] v[j].hash
}

/// The confidence of a group that holds byte-identical copies.
pub open spec fn exact_label() -> Seq<char> {
    seq!['e', 'x', 'a', 'c', 't', 'o']
}

/// The confidence of a group tied by metadata alone.
pub open spec fn probable_label() -> Seq<char> {
    seq!['p', 'r', 'o', 'b', 'a', 'b', 'l', 'e']
}

/// `g` is the duplicate group of the images `v`: the same images listed best
/// first (images tied on every key in their order in `v`), their total size,
/// and "exacto" when two of them have the same content hash, else
/// "probable".
pub open spec fn describes(g: DupGroupView, v: Seq<ImageView>) -> bool {
    &&& g.images.to_multiset() == v.to_multiset()
    &&& exists|perm: Seq<int>| #[trigger] stable_permutation(v, g.images, perm)
    &&& best_first(g.images)
    &&& g.total_size as nat == sum_sizes(v)
    &&& g.confidence == (if has_repeated_hash(v) { exact_label() } else { probable_label() })
}

/// The total size of every duplicate class of two or more images fits in
/// 64 bits.
pub open spec fn sizes_fit(s: Seq<ImageView>, opts: GroupOptions) -> bool {
    forall|p: Seq<usize>| #[trigger] is_component(s, opts, p) && p.len() >= 2 ==> sum_sizes(members(s, p)) <= u64::MAX
}

/// Every image connected to another one has a pixel count that fits in 32
/// bits.
pub open spec fn areas_fit_in_classes(s: Seq<ImageView>, opts: GroupOptions) -> bool {
    forall|i: int, j: int|
        0 <= i < s.len() && 0 <= j < s.len() && i != j && #[trigger] connected(s, opts, i, j) ==> area_fits(s[i])
}

/// The members of a class of a duplicate partition are each connected to
/// another member, so their pixel counts fit when those of all connected
/// images do.
proof fn lemma_part_areas(s: Seq<ImageView>, opts: GroupOptions, parts: Seq<Seq<usize>>, g: int)
    requires
        is_duplicate_partition(s, opts, parts),
        areas_fit_in_classes(s, opts),
        0 <= g < parts.len(),
    ensures
        forall|k: int| 0 <= k < parts[g].len() ==> area_fits(s[#[trigger] parts[g][k] as int]),
{
    let p = parts[g];
    assert(p.len() >= 2 && is_component(s, opts, p));
    assert forall|k: int| 0 <= k < p.len() implies area_fits(s[#[trigger] p[k] as int]) by {
        let x = p[k] as int;
        let other: int = if k == 0 { p[1] as int } else { p[0] as int };
        assert(p[0] < p[1]);
        assert(x != other);
        assert(p.contains(x as usize));
        assert(p.contains(other as usize));
        assert(connected(s, opts, p[0] as int, x));
        assert(connected(s, opts, p[0] as int, other));
        lemma_connected_sym(s, opts, p[0] as int, x);
        lemma_connected_trans(s, opts, x, p[0] as int, other);
    }
}

/// The groups `gs` are the duplicate groups of the classes `parts` of `s`,
/// in the same order.
pub open spec fn grouping_of(s: Seq<ImageView>, opts: GroupOptions, parts: Seq<Seq<usize>>, gs: Seq<DupGroupView>) -> bool {
    &&& is_duplicate_partition(s, opts, parts)
    &&& gs.len() == parts.len()
    &&& forall|g: int| 0 <= g < gs.len() ==> describes(#[trigger] gs[g], members(s, parts[g]))
}

/// The views of a list of groups.
pub open spec fn group_views(gs: Seq<DupGroup>) -> Seq<DupGroupView> {
    gs.map_values(|g: DupGroup| g@)
}

/// The total size of a prefix of a list is at most that of the list.
pub proof fn lemma_sum_prefix(v: Seq<ImageView>, i: int)
    requires
        0 <= i <= v.len(),
    ensures
        sum_sizes(v.take(i)) <= sum_sizes(v),
    decreases v.len() - i,
{
    if i < v.len() {
        lemma_sum_prefix(v, i + 1);
        assert(v.take(i + 1).drop_last() == v.take(i));
    } else {
        assert(v.take(i) == v);
    }
}

/// Total size of the images that `part` names.
fn part_total(images: &Vec<ImageInfo>, part: &Vec<usize>) -> (t: u64)
    requires
        forall|k: int| 0 <= k < part.len() ==> #[trigger] part@[k] < images.len(),
        sum_sizes(members(views(images@), part@)) <= u64::MAX,
    ensures
        t as nat == sum_sizes(members(views(images@), part@)),
{
    let ghost v = members(views(images@), part@);
    let mut t: u64 = 0;
    for i in 0..part.len()
        invariant
            v == members(views(images@), part@),
            forall|k: int| 0 <= k < part.len() ==> #[trigger] part@[k] < images.len(),
            sum_sizes(v) <= u64::MAX,
            t as nat == sum_sizes(v.take(i as int)),
    {
        proof {
            lemma_sum_prefix(v, i + 1);
            assert(v.take(i + 1).drop_last() == v.take(i as int));
            assert(v[i as int] == images@[part@[i as int] as int]@);
        }
        t = t + images[part[i]].size_bytes;
    }
    assert(v.take(part.len() as int) == v);
    t
}

/// The confidence text for a group.
pub fn confidence_label(exact: bool) -> (r: String)
    ensures
        r@ == (if exact { exact_label() } else { probable_label() }),
{
    if exact {
        let r = String::from_str("exacto");
        proof {
            reveal_strlit("exacto");
        }
        r
    } else {
        let r = String::from_str("probable");
        proof {
            reveal_strlit("probable");
        }
        r
    }
}

/// Builds the duplicate group of the images that `part` names.
fn build_group(images: &Vec<ImageInfo>, part: &Vec<usize>) -> (g: DupGroup)
    requires
        forall|k: int| 0 <= k < part.len() ==> #[trigger] part@[k] < images.len(),
        forall|k: int| 0 <= k < part.len() ==> area_fits(images@[#[trigger] part@[k] as int]@),
        sum_sizes(members(views(images@), part@)) <= u64::MAX,
    ensures
        describes(g@, members(views(images@), part@)),
{
    let ghost v = members(views(images@), part@);
    let mut imgs: Vec<ImageInfo> = Vec::new();
    for i in 0..part.len()
        invariant
            v == members(views(images@), part@),
            forall|k: int| 0 <= k < part.len() ==> #[trigger] part@[k] < images.len(),
            forall|k: int| 0 <= k < part.len() ==> area_fits(images@[#[trigger] part@[k] as int]@),
            views(imgs@) == v.take(i as int),
            forall|k: int| 0 <= k < imgs.len() ==> area_fits(#[trigger] imgs@[k]@),
    {
        let im = images[part[i]].duplicate();
        proof {
            assert(v[i as int] == images@[part@[i as int] as int]@);
            assert(area_fits(images@[part@[i as int] as int]@));
        }
        let ghost before = imgs@;
        let ghost imv = im;
        imgs.push(im);
        proof {
            assert(imgs@ == before.push(imv));
            assert(views(before).len() == before.len());
            assert forall|k: int| 0 <= k < i + 1 implies #[trigger] views(imgs@)[k] == v.take(i + 1)[k] by {
                if k < i {
                    assert(views(before)[k] == v.take(i as int)[k]);
                    assert(imgs@[k] == before[k]);
                }
            }
            assert(views(imgs@) =~= v.take(i + 1));
        }
    }
    assert(v.take(part.len() as int) == v);
    let total = part_total(images, part);
    let mut exact = false;
    let n = imgs.len();
    for i in 0..n
        invariant
            n == imgs.len(),
            views(imgs@) == v,
            exact <==> exists|a: int, b: int| 0 <= a < b < n && a < i && #[trigger] v[a].hash == #[trigger] v[b].hash,
    {
        for j in i + 1..n
            invariant
                n == imgs.len(),
                i < n,
                views(imgs@) == v,
                exact <==> (exists|a: int, b: int| 0 <= a < b < n && a < i && #[trigger] v[a].hash == #[trigger] v[b].hash)
                    || (exists|b: int| i < b < j && v[i as int].hash == #[trigger] v[b].hash),
        {
            proof {
                assert(v[i as int] == imgs@[i as int]@);
                assert(v[j as int] == imgs@[j as int]@);
            }
            let same = imgs[i].hash == imgs[j].hash;
            let ghost was = exact;
            if same {
                exact = true;
            }
            proof {
                if same {
                    assert(v[i as int].hash == v[j as int].hash);
                } else {
                    assert(v[i as int].hash != v[j as int].hash);
                    if exists|b: int| i < b < j + 1 && v[i as int].hash == #[trigger] v[b].hash {
                        let b = choose|b: int| i < b < j + 1 && v[i as int].hash == #[trigger] v[b].hash;
                        assert(b != j);
                    }
                }
            }
        }
    }
    sort_by_best(&mut imgs);
    let confidence = confidence_label(exact);
    DupGroup { confidence, images: imgs, total_size: total }
}

/// Groups duplicate images. Two images are tied when they have the same
/// content hash, or the same metadata signature; the groups are the classes
/// of images connected by ties that hold two or more images. Each group lists
/// its images best first, carries their total size and is "exacto" when two
/// of them have the same hash, "probable" otherwise; the groups come largest
/// total size first.
pub fn group(images: Vec<ImageInfo>) -> (groups: Vec<DupGroup>)
    requires
        areas_fit_in_classes(views(images@), exact_ties()),
        sizes_fit(views(images@), exact_ties()),
    ensures
        exists|parts: Seq<Seq<usize>>| #[trigger] grouping_of(views(images@), exact_ties(), parts, group_views(groups@)),
        forall|g1: int, g2: int|
            0 <= g1 < g2 < groups.len() ==> (#[trigger] groups@[g1]).total_size >= (#[trigger] groups@[g2]).total_size,
{
    group_with_options(images, GroupOptions { dhash_umbral: 0, buscar_similares: false })
}

/// Groups duplicate images as [`group`] does, with images whose difference
/// hashes are close tied too when `opts` asks for similar images.
pub fn group_with_options(images: Vec<ImageInfo>, opts: GroupOptions) -> (groups: Vec<DupGroup>)
    requires
        areas_fit_in_classes(views(images@), opts),
        sizes_fit(views(images@), opts),
    ensures
        exists|parts: Seq<Seq<usize>>| #[trigger] grouping_of(views(images@), opts, parts, group_views(groups@)),
        forall|g1: int, g2: int|
            0 <= g1 < g2 < groups.len() ==> (#[trigger] groups@[g1]).total_size >= (#[trigger] groups@[g2]).total_size,
{
    let ghost s = views(images@);
    let parts = duplicate_classes(&images, opts);
    let ghost pv = parts_view(parts@);
    let m = parts.len();
    let mut totals: Vec<u64> = Vec::new();
    for h in 0..m
        invariant
            m == parts.len(),
            s == views(images@),
            pv == parts_view(parts@),
            is_duplicate_partition(s, opts, pv),
            sizes_fit(s, opts),
            totals.len() == h,
            forall|q: int| 0 <= q < h ==> #[trigger] totals@[q] as nat == sum_sizes(members(s, pv[q])),
    {
        proof {
            assert(pv[h as int] == parts@[h as int]@);
            assert(is_component(s, opts, pv[h as int]));
            assert(pv[h as int].len() >= 2);
        }
        let t = part_total(&images, &parts[h]);
        totals.push(t);
    }
    let mut order: Vec<usize> = Vec::new();
    for h in 0..m
        invariant
            m == parts.len(),
            totals.len() == m,
            order.len() == h,
            forall|k: int| 0 <= k < order.len() ==> #[trigger] order@[k] < h,
            forall|k1: int, k2: int| 0 <= k1 < k2 < order.len() ==> order@[k1] != order@[k2],
            forall|x: int| 0 <= x < h ==> #[trigger] order@.contains(x as usize),
            forall|k1: int, k2: int|
                0 <= k1 < k2 < order.len() ==> totals@[order@[k1] as int] >= totals@[order@[k2] as int],
    {
        let mut pos: usize = 0;
        while pos < order.len() && totals[order[pos]] >= totals[h]
            invariant
                pos <= order.len(),
                totals.len() == m,
                h < m,
                forall|k: int| 0 <= k < order.len() ==> #[trigger] order@[k] < h,
                forall|q: int| 0 <= q < pos ==> totals@[#[trigger] order@[q] as int] >= totals@[h as int],
            decreases order.len() - pos,
        {
            pos = pos + 1;
        }
        let ghost before = order@;
        order.insert(pos, h);
        proof {
            assert(order@ == before.insert(pos as int, h));
            assert forall|k: int| 0 <= k < order.len() implies #[trigger] order@[k] < h + 1 by {
                if k < pos {
                    assert(order@[k] == before[k]);
                } else if k > pos {
                    assert(order@[k] == before[k - 1]);
                }
            }
            assert forall|k1: int, k2: int| 0 <= k1 < k2 < order.len() implies order@[k1] != order@[k2] by {
                if k1 < pos && k2 < pos {
                } else if k1 > pos {
                    assert(order@[k1] == before[k1 - 1] && order@[k2] == before[k2 - 1]);
                } else if k1 < pos && k2 > pos {
                    assert(order@[k1] == before[k1] && order@[k2] == before[k2 - 1]);
                } else if k1 == pos {
                    assert(order@[k2] == before[k2 - 1]);
                    assert(before[k2 - 1] < h);
                } else {
                    assert(order@[k1] == before[k1]);
                }
            }
            assert forall|x: int| 0 <= x < h + 1 implies #[trigger] order@.contains(x as usize) by {
                if x < h {
                    assert(before.contains(x as usize));
                    let w = choose|w: int| 0 <= w < before.len() && before[w] == x as usize;
                    if w < pos {
                        assert(order@[w] == x as usize);
                    } else {
                        assert(order@[w + 1] == x as usize);
                    }
                } else {
                    assert(order@[pos as int] == h);
                }
            }
            assert forall|k1: int, k2: int|
                0 <= k1 < k2 < order.len() implies totals@[order@[k1] as int] >= totals@[order@[k2] as int] by {
                if k1 < pos && k2 < pos {
                } else if k1 > pos {
                    assert(order@[k1] == before[k1 - 1] && order@[k2] == before[k2 - 1]);
                } else if k1 < pos && k2 > pos {
                    assert(order@[k1] == before[k1] && order@[k2] == before[k2 - 1]);
                    assert(totals@[before[k1] as int] >= totals@[h as int]);
                    assert(totals@[before[pos as int] as int] < totals@[h as int]);
                    if k2 - 1 > pos {
                        assert(totals@[before[pos as int] as int] >= totals@[before[k2 - 1] as int]);
                    }
                } else if k1 == pos {
                    assert(order@[k2] == before[k2 - 1]);
                    assert(totals@[before[pos as int] as int] < totals@[h as int]);
                    if k2 - 1 > pos {
                        assert(totals@[before[pos as int] as int] >= totals@[before[k2 - 1] as int]);
                    }
                } else {
                    assert(order@[k1] == before[k1]);
                    assert(totals@[before[k1] as int] >= totals@[h as int]);
                }
            }
        }
    }
    let ghost out_parts = Seq::new(m as nat, |g: int| pv[order@[g] as int]);
    let mut groups: Vec<DupGroup> = Vec::new();
    for g in 0..m
        invariant
            m == parts.len(),
            s == views(images@),
            pv == parts_view(parts@),
            is_duplicate_partition(s, opts, pv),
            sizes_fit(s, opts),
            areas_fit_in_classes(s, opts),
            totals.len() == m,
            forall|q: int| 0 <= q < m ==> #[trigger] totals@[q] as nat == sum_sizes(members(s, pv[q])),
            order.len() == m,
            forall|k: int| 0 <= k < order.len() ==> #[trigger] order@[k] < m,
            out_parts == Seq::new(m as nat, |g: int| pv[order@[g] as int]),
            groups.len() == g,
            forall|q: int| 0 <= q < g ==> describes(#[trigger] group_views(groups@)[q], members(s, out_parts[q])),
            forall|q: int| 0 <= q < g ==> (#[trigger] groups@[q]).total_size == totals@[order@[q] as int],
    {
        let h = order[g];
        proof {
            assert(h < m);
            assert(pv[h as int] == parts@[h as int]@);
            assert(is_component(s, opts, pv[h as int]));
            assert(out_parts[g as int] == pv[h as int]);
            lemma_part_areas(s, opts, pv, h as int);
            assert forall|k: int| 0 <= k < parts@[h as int].len() implies area_fits(
                images@[#[trigger] parts@[h as int]@[k] as int]@,
            ) by {
                assert(area_fits(s[pv[h as int][k] as int]));
            }
        }
        let grp = build_group(&images, &parts[h]);
        let ghost before = groups@;
        groups.push(grp);
        proof {
            assert forall|q: int| 0 <= q < g + 1 implies describes(#[trigger] group_views(groups@)[q], members(s, out_parts[q])) by {
                if q < g {
                    assert(groups@[q] == before[q]);
                    assert(group_views(before)[q] == before[q]@);
                }
            }
        }
    }
    proof {
        let gv = group_views(groups@);
        assert forall|q: int| 0 <= q < out_parts.len() implies (#[trigger] out_parts[q]).len() >= 2 && is_component(s, opts, out_parts[q]) by {
            assert(out_parts[q] == pv[order@[q] as int]);
        }
        assert forall|g1: int, g2: int, k: int|
            #![trigger out_parts[g1][k], out_parts[g2]]
            0 <= g1 < out_parts.len() && 0 <= g2 < out_parts.len() && g1 != g2 && 0 <= k < out_parts[g1].len()
                implies !out_parts[g2].contains(out_parts[g1][k]) by {
            let h1 = order@[g1] as int;
            let h2 = order@[g2] as int;
            assert(out_parts[g1] == pv[h1]);
            assert(out_parts[g2] == pv[h2]);
            assert(h1 != h2);
            assert(!pv[h2].contains(pv[h1][k]));
        }
        assert forall|i: int, j: int|
            0 <= i < s.len() && 0 <= j < s.len() && i != j && #[trigger] connected(s, opts, i, j)
                implies exists|g: int| 0 <= g < out_parts.len() && #[trigger] out_parts[g].contains(i as usize) by {
            let h = choose|h: int| 0 <= h < pv.len() && #[trigger] pv[h].contains(i as usize);
            assert(order@.contains(h as usize));
            let w = choose|w: int| 0 <= w < order@.len() && order@[w] == h as usize;
            assert(out_parts[w] == pv[h]);
        }
        assert(is_duplicate_partition(s, opts, out_parts));
        assert forall|q: int| 0 <= q < gv.len() implies describes(#[trigger] gv[q], members(s, out_parts[q])) by {
        }
        assert(grouping_of(s, opts, out_parts, gv));
    }
    groups
}

/// Within a duplicate partition, two connected images that are not the same
/// image lie in one and the same class.
pub proof fn lemma_connected_share_class(s: Seq<ImageView>, opts: GroupOptions, parts: Seq<Seq<usize>>, i: int, j: int)
    requires
        is_duplicate_partition(s, opts, parts),
        0 <= i < s.len(),
        0 <= j < s.len(),
        i != j,
        connected(s, opts, i, j),
    ensures
        exists|g: int| 0 <= g < parts.len() && #[trigger] parts[g].contains(i as usize) && parts[g].contains(j as usize),
{
    let g = choose|g: int| 0 <= g < parts.len() && #[trigger] parts[g].contains(i as usize);
    let p = parts[g];
    assert(is_component(s, opts, p));
    assert(connected(s, opts, p[0] as int, i));
    lemma_connected_trans(s, opts, p[0] as int, i, j);
    assert(p.contains(j as usize));
}

/// Byte-identical copies (same content hash) always end up in one group.
pub proof fn lemma_same_hash_grouped(s: Seq<ImageView>, opts: GroupOptions, parts: Seq<Seq<usize>>, gs: Seq<DupGroupView>, i: int, j: int)
    requires
        grouping_of(s, opts, parts, gs),
        0 <= i < s.len(),
        0 <= j < s.len(),
        i != j,
        s[i].hash == s[j].hash,
    ensures
        exists|g: int| 0 <= g < parts.len() && #[trigger] parts[g].contains(i as usize) && parts[g].contains(j as usize),
{
    lemma_connected_link(s, opts, i, j);
    lemma_connected_share_class(s, opts, parts, i, j);
}

/// Photos with the same metadata signature (date, dimensions and camera)
/// always end up in one group.
pub proof fn lemma_same_signature_grouped(
    s: Seq<ImageView>, opts: GroupOptions,
    parts: Seq<Seq<usize>>,
    gs: Seq<DupGroupView>,
    i: int,
    j: int,
)
    requires
        grouping_of(s, opts, parts, gs),
        0 <= i < s.len(),
        0 <= j < s.len(),
        i != j,
        image_signature(s[i]) is Some,
        image_signature(s[i]) == image_signature(s[j]),
    ensures
        exists|g: int| 0 <= g < parts.len() && #[trigger] parts[g].contains(i as usize) && parts[g].contains(j as usize),
{
    lemma_connected_link(s, opts, i, j);
    lemma_connected_share_class(s, opts, parts, i, j);
}

/// When similar images are searched for, images whose difference hashes
/// differ in at most the threshold's number of bits end up in one group.
pub proof fn lemma_similar_grouped(
    s: Seq<ImageView>,
    opts: GroupOptions,
    parts: Seq<Seq<usize>>,
    gs: Seq<DupGroupView>,
    i: int,
    j: int,
)
    requires
        grouping_of(s, opts, parts, gs),
        opts.buscar_similares,
        0 <= i < s.len(),
        0 <= j < s.len(),
        i != j,
        dhash_close(s[i].dhash, s[j].dhash, opts.dhash_umbral),
    ensures
        exists|g: int| 0 <= g < parts.len() && #[trigger] parts[g].contains(i as usize) && parts[g].contains(j as usize),
{
    lemma_connected_link(s, opts, i, j);
    lemma_connected_share_class(s, opts, parts, i, j);
}

/// An image tied to no other image, directly or through others, is in no
/// group.
pub proof fn lemma_unique_image_ungrouped(s: Seq<ImageView>, opts: GroupOptions, parts: Seq<Seq<usize>>, i: int)
    requires
        is_duplicate_partition(s, opts, parts),
        0 <= i < s.len(),
        forall|j: int| 0 <= j < s.len() && j != i ==> !connected(s, opts, i, j),
    ensures
        forall|g: int| 0 <= g < parts.len() ==> !(#[trigger] parts[g]).contains(i as usize),
{
    assert forall|g: int| 0 <= g < parts.len() implies !(#[trigger] parts[g]).contains(i as usize) by {
        let p = parts[g];
        if p.contains(i as usize) {
            assert(is_component(s, opts, p));
            assert(connected(s, opts, p[0] as int, i));
            let other: int = if p[0] as int == i { p[1] as int } else { p[0] as int };
            assert(p[0] < p[1]);
            assert(p.contains(other as usize));
            assert(connected(s, opts, p[0] as int, other));
            lemma_connected_sym(s, opts, p[0] as int, i);
            lemma_connected_trans(s, opts, i, p[0] as int, other);
        }
    }
}

/// Every image of a group comes from the scanned images, and every image of a
/// class appears in its group: the group's images are those of the class.
pub proof fn lemma_group_images_are_class(s: Seq<ImageView>, opts: GroupOptions, parts: Seq<Seq<usize>>, gs: Seq<DupGroupView>, g: int, k: int)
    requires
        grouping_of(s, opts, parts, gs),
        0 <= g < gs.len(),
        0 <= k < parts[g].len(),
    ensures
        gs[g].images.contains(s[parts[g][k] as int]),
{
    broadcast use vstd::seq_lib::group_to_multiset_ensures;
    let v = members(s, parts[g]);
    assert(describes(gs[g], v));
    assert(v[k] == s[parts[g][k] as int]);
    assert(v.contains(v[k]));
    vstd::seq_lib::to_multiset_contains(v, v[k]);
    vstd::seq_lib::to_multiset_contains(gs[g].images, v[k]);
}

/// The first image of a group has at least as many pixels as any other
/// image of it.
pub proof fn lemma_best_first_largest(v: Seq<ImageView>, k: int)
    requires
        best_first(v),
        0 < k < v.len(),
    ensures
        area(v[0]) >= area(v[k]),
{
    assert(best_order(v[0], v[k]) <= 0);
}

/// Two strictly increasing lists with the same members are equal.
proof fn lemma_sorted_same_members(p: Seq<usize>, q: Seq<usize>)
    requires
        forall|k1: int, k2: int| 0 <= k1 < k2 < p.len() ==> p[k1] < p[k2],
        forall|k1: int, k2: int| 0 <= k1 < k2 < q.len() ==> q[k1] < q[k2],
        forall|x: usize| p.contains(x) <==> q.contains(x),
    ensures
        p == q,
    decreases p.len(),
{
    if p.len() == 0 {
        if q.len() > 0 {
            assert(q.contains(q[0]));
        }
        assert(p =~= q);
    } else {
        assert(p.contains(p[0]));
        assert(q.len() > 0);
        assert(q.contains(q[0]));
        let wp = choose|w: int| 0 <= w < p.len() && p[w] == q[0];
        let wq = choose|w: int| 0 <= w < q.len() && q[w] == p[0];
        if wp > 0 {
            assert(p[0] < p[wp]);
        }
        if wq > 0 {
            assert(q[0] < q[wq]);
        }
        assert(p[0] == q[0]);
        let pt = p.drop_first();
        let qt = q.drop_first();
        assert forall|x: usize| pt.contains(x) <==> qt.contains(x) by {
            if pt.contains(x) {
                let w = choose|w: int| 0 <= w < pt.len() && pt[w] == x;
                assert(p[w + 1] == x);
                assert(p[0] < p[w + 1]);
                assert(p.contains(x));
                let v = choose|v: int| 0 <= v < q.len() && q[v] == x;
                assert(v != 0);
                assert(qt[v - 1] == x);
            }
            if qt.contains(x) {
                let w = choose|w: int| 0 <= w < qt.len() && qt[w] == x;
                assert(q[w + 1] == x);
                assert(q[0] < q[w + 1]);
                assert(q.contains(x));
                let v = choose|v: int| 0 <= v < p.len() && p[v] == x;
                assert(v != 0);
                assert(pt[v - 1] == x);
            }
        }
        lemma_sorted_same_members(pt, qt);
        assert(p == seq![p[0]] + pt);
        assert(q == seq![q[0]] + qt);
    }
}

/// Every component of two or more images is one of the classes of a
/// duplicate partition.
proof fn lemma_component_is_part(s: Seq<ImageView>, opts: GroupOptions, parts: Seq<Seq<usize>>, p: Seq<usize>)
    requires
        is_duplicate_partition(s, opts, parts),
        is_component(s, opts, p),
        p.len() >= 2,
    ensures
        exists|g: int| 0 <= g < parts.len() && #[trigger] parts[g] == p,
{
    let a = p[0] as int;
    let b = p[1] as int;
    assert(p[0] < p[1]);
    assert(p.contains(p[1]));
    assert(connected(s, opts, a, b));
    let g = choose|g: int| 0 <= g < parts.len() && #[trigger] parts[g].contains(a as usize);
    let q = parts[g];
    assert(is_component(s, opts, q));
    assert(connected(s, opts, q[0] as int, a));
    assert forall|x: usize| p.contains(x) <==> q.contains(x) by {
        if p.contains(x) {
            let w = choose|w: int| 0 <= w < p.len() && p[w] == x;
            assert(x < s.len());
            assert(connected(s, opts, a, x as int));
            lemma_connected_trans(s, opts, q[0] as int, a, x as int);
        }
        if q.contains(x) {
            let w = choose|w: int| 0 <= w < q.len() && q[w] == x;
            assert(x < s.len());
            assert(connected(s, opts, q[0] as int, x as int));
            lemma_connected_sym(s, opts, q[0] as int, a);
            lemma_connected_trans(s, opts, a, q[0] as int, x as int);
        }
    }
    lemma_sorted_same_members(p, q);
}

/// Whether [`group`] can take these images: every image connected to another
/// one has a pixel count that fits in 32 bits, and the total size of every
/// duplicate class fits in 64 bits.
pub fn grouping_fits(images: &Vec<ImageInfo>) -> (r: bool)
    ensures
        r == (areas_fit_in_classes(views(images@), exact_ties()) && sizes_fit(views(images@), exact_ties())),
{
    grouping_fits_with_options(images, GroupOptions { dhash_umbral: 0, buscar_similares: false })
}

/// Whether [`group_with_options`] can take these images under `opts`.
pub fn grouping_fits_with_options(images: &Vec<ImageInfo>, opts: GroupOptions) -> (r: bool)
    ensures
        r == (areas_fit_in_classes(views(images@), opts) && sizes_fit(views(images@), opts)),
{
    let ghost s = views(images@);
    let parts = duplicate_classes(images, opts);
    let ghost pv = parts_view(parts@);
    for g in 0..parts.len()
        invariant
            s == views(images@),
            pv == parts_view(parts@),
            pv.len() == parts.len(),
            is_duplicate_partition(s, opts, pv),
            forall|h: int, k: int| 0 <= h < g && 0 <= k < pv[h].len() ==> area_fits(
                s[#[trigger] pv[h][k] as int],
            ),
            forall|h: int| 0 <= h < g ==> sum_sizes(members(s, #[trigger] pv[h])) <= u64::MAX,
    {
        let part = &parts[g];
        proof {
            assert(pv[g as int] == part@);
            assert(is_component(s, opts, part@));
            assert(part@.len() >= 2);
        }
        let ghost v = members(s, part@);
        let mut total: u64 = 0;
        for k in 0..part.len()
            invariant
                s == views(images@),
                pv == parts_view(parts@),
                pv.len() == parts.len(),
                g < parts.len(),
                is_duplicate_partition(s, opts, pv),
                part@ == pv[g as int],
                is_component(s, opts, part@),
                part@.len() >= 2,
                v == members(s, part@),
                total as nat == sum_sizes(v.take(k as int)),
                forall|q: int| 0 <= q < k ==> area_fits(s[#[trigger] part@[q] as int]),
        {
            let im = &images[part[k]];
            proof {
                assert(s[part@[k as int] as int] == im@);
                assert(v[k as int] == im@);
                assert(v.take(k + 1).drop_last() == v.take(k as int));
            }
            let w: u64 = match im.width {
                Some(w) => w as u64,
                None => 0,
            };
            let h: u64 = match im.height {
                Some(h) => h as u64,
                None => 0,
            };
            assert(w * h <= 0xffff_ffff * 0xffff_ffff) by (nonlinear_arith)
                requires
                    w <= 0xffff_ffff,
                    h <= 0xffff_ffff,
            ;
            assert(w * h == area(im@));
            if w * h > 0xffff_ffff {
                proof {
                    lemma_part_member_unfit(s, opts, pv, g as int, k as int);
                }
                return false;
            }
            if total > u64::MAX - im.size_bytes {
                proof {
                    lemma_sum_prefix(v, k + 1);
                    assert(is_component(s, opts, pv[g as int]) && pv[g as int].len() >= 2);
                }
                return false;
            }
            total = total + im.size_bytes;
        }
        proof {
            assert(v.take(part.len() as int) == v);
            assert forall|h: int, k: int| 0 <= h < g + 1 && 0 <= k < pv[h].len() implies area_fits(
                s[#[trigger] pv[h][k] as int],
            ) by {
                if h == g {
                    assert(pv[h][k] == part@[k]);
                }
            }
        }
    }
    proof {
        assert forall|i: int, j: int|
            0 <= i < s.len() && 0 <= j < s.len() && i != j && #[trigger] connected(s, opts, i, j) implies area_fits(s[i]) by {
            assert(s.len() == images.len());
            assert(exists|g: int| 0 <= g < pv.len() && #[trigger] pv[g].contains(i as usize));
            let g = choose|g: int| 0 <= g < pv.len() && #[trigger] pv[g].contains(i as usize);
            let k = choose|k: int| 0 <= k < pv[g].len() && pv[g][k] == i as usize;
            assert(area_fits(s[pv[g][k] as int]));
            assert(pv[g][k] as int == i);
        }
        assert forall|p: Seq<usize>| #[trigger] is_component(s, opts, p) && p.len() >= 2 implies sum_sizes(members(s, p))
            <= u64::MAX by {
            lemma_component_is_part(s, opts, pv, p);
            let g = choose|g: int| 0 <= g < pv.len() && #[trigger] pv[g] == p;
            assert(sum_sizes(members(s, pv[g])) <= u64::MAX);
        }
    }
    true
}

/// A member of a class whose pixel count does not fit breaks the condition on
/// connected images.
proof fn lemma_part_member_unfit(s: Seq<ImageView>, opts: GroupOptions, parts: Seq<Seq<usize>>, g: int, k: int)
    requires
        is_duplicate_partition(s, opts, parts),
        0 <= g < parts.len(),
        0 <= k < parts[g].len(),
        !area_fits(s[parts[g][k] as int]),
    ensures
        !areas_fit_in_classes(s, opts),
{
    if areas_fit_in_classes(s, opts) {
        lemma_part_areas(s, opts, parts, g);
        assert(area_fits(s[parts[g][k] as int]));
    }
}

/// The duplicate classes are determined by the images: two duplicate
/// partitions of the same images hold the same classes, whatever their order.
pub proof fn lemma_partition_unique(s: Seq<ImageView>, opts: GroupOptions, p1: Seq<Seq<usize>>, p2: Seq<Seq<usize>>)
    requires
        is_duplicate_partition(s, opts, p1),
        is_duplicate_partition(s, opts, p2),
    ensures
        forall|g: int| 0 <= g < p1.len() ==> #[trigger] p2.contains(p1[g]),
        forall|g: int| 0 <= g < p2.len() ==> #[trigger] p1.contains(p2[g]),
{
    assert forall|g: int| 0 <= g < p1.len() implies #[trigger] p2.contains(p1[g]) by {
        assert(p1[g].len() >= 2 && is_component(s, opts, p1[g]));
        lemma_component_is_part(s, opts, p2, p1[g]);
    }
    assert forall|g: int| 0 <= g < p2.len() implies #[trigger] p1.contains(p2[g]) by {
        assert(p2[g].len() >= 2 && is_component(s, opts, p2[g]));
        lemma_component_is_part(s, opts, p1, p2[g]);
    }
}


/// Dropping one image from a list takes its size off the total.
proof fn lemma_sum_remove(v: Seq<ImageView>, j: int)
    requires
        0 <= j < v.len(),
    ensures
        sum_sizes(v) == sum_sizes(v.remove(j)) + v[j].size_bytes as nat,
    decreases v.len(),
{
    if j == v.len() - 1 {
        assert(v.remove(j) =~= v.drop_last());
    } else {
        let w = v.remove(j);
        assert(w.drop_last() =~= v.drop_last().remove(j));
        assert(w.last() == v.last());
        lemma_sum_remove(v.drop_last(), j);
    }
}

/// `v2` lists the images of `v1` in another order: entry `k` of `v2` is entry
/// `pi[k]` of `v1`, and each entry of `v1` is taken exactly once.
pub open spec fn relists(v1: Seq<ImageView>, v2: Seq<ImageView>, pi: Seq<int>) -> bool {
    &&& pi.len() == v2.len()
    &&& forall|k: int| 0 <= k < v2.len() ==> 0 <= #[trigger] pi[k] < v1.len() && v2[k] == v1[pi[k]]
    &&& forall|k1: int, k2: int|
        0 <= k1 < v2.len() && 0 <= k2 < v2.len() && k1 != k2 ==> #[trigger] pi[k1] != #[trigger] pi[k2]
    &&& forall|i: int| 0 <= i < v1.len() ==> #[trigger] hits(pi, i)
}

/// Some entry of `pi` is `i`.
pub open spec fn hits(pi: Seq<int>, i: int) -> bool {
    exists|k: int| 0 <= k < pi.len() && #[trigger] pi[k] == i
}

/// Two lists of the same images in another order have the same length, the
/// same multiset of images and the same total size.
proof fn lemma_relisted_totals(v1: Seq<ImageView>, v2: Seq<ImageView>, pi: Seq<int>)
    requires
        relists(v1, v2, pi),
    ensures
        v1.len() == v2.len(),
        v1.to_multiset() == v2.to_multiset(),
        sum_sizes(v1) == sum_sizes(v2),
    decreases v2.len(),
{
    broadcast use vstd::seq_lib::group_to_multiset_ensures;
    broadcast use vstd::multiset::group_multiset_axioms;
    if v2.len() == 0 {
        if v1.len() > 0 {
            assert(hits(pi, 0));
        }
        assert(v1 =~= v2);
    } else {
        let n = v2.len() - 1;
        let j = pi[n];
        let w1 = v1.remove(j);
        let w2 = v2.drop_last();
        let rho = Seq::new(n as nat, |q: int| if pi[q] < j { pi[q] } else { pi[q] - 1 });
        assert forall|k: int| 0 <= k < w2.len() implies 0 <= #[trigger] rho[k] < w1.len() && w2[k] == w1[rho[k]] by {
            assert(pi[k] != pi[n]);
        }
        assert forall|k1: int, k2: int|
            0 <= k1 < w2.len() && 0 <= k2 < w2.len() && k1 != k2 implies #[trigger] rho[k1] != #[trigger] rho[k2] by {
            assert(pi[k1] != pi[n]);
            assert(pi[k2] != pi[n]);
            assert(pi[k1] != pi[k2]);
        }
        assert forall|i: int| 0 <= i < w1.len() implies #[trigger] hits(rho, i) by {
            let target = if i < j { i } else { i + 1 };
            assert(hits(pi, target));
            let k = choose|k: int| 0 <= k < pi.len() && #[trigger] pi[k] == target;
            assert(k != n);
            assert(rho[k] == i);
        }
        lemma_relisted_totals(w1, w2, rho);
        lemma_sum_remove(v1, j);
        assert(w2.push(v2[n]) =~= v2);
        assert(v1.to_multiset().count(v1[j]) > 0);
        assert(v1.to_multiset() =~= w1.to_multiset().insert(v1[j]));
    }
}

/// Two lists of the same images in another order agree on whether two
/// images have the same content hash.
proof fn lemma_relisted_repeats(v1: Seq<ImageView>, v2: Seq<ImageView>, pi: Seq<int>)
    requires
        relists(v1, v2, pi),
    ensures
        has_repeated_hash(v1) == has_repeated_hash(v2),
{
    if has_repeated_hash(v1) {
        let (a, b) = choose|a: int, b: int| 0 <= a < b < v1.len() && #[trigger] v1[a].hash == #[trigger] v1[b].hash;
        assert(hits(pi, a) && hits(pi, b));
        let ka = choose|k: int| 0 <= k < pi.len() && #[trigger] pi[k] == a;
        let kb = choose|k: int| 0 <= k < pi.len() && #[trigger] pi[k] == b;
        let lo = if ka < kb { ka } else { kb };
        let hi = if ka < kb { kb } else { ka };
        assert(v2[lo].hash == v2[hi].hash);
    }
    if has_repeated_hash(v2) {
        let (a, b) = choose|a: int, b: int| 0 <= a < b < v2.len() && #[trigger] v2[a].hash == #[trigger] v2[b].hash;
        let lo = if pi[a] < pi[b] { pi[a] } else { pi[b] };
        let hi = if pi[a] < pi[b] { pi[b] } else { pi[a] };
        assert(pi[a] != pi[b]);
        assert(v1[lo].hash == v1[hi].hash);
    }
}

/// Entry `k` of `a` is entry `f[k]` of `b`.
spec fn maps_into(a: Seq<ImageView>, b: Seq<ImageView>, f: Seq<int>) -> bool {
    &&& f.len() == a.len()
    &&& forall|k: int| 0 <= k < a.len() ==> 0 <= #[trigger] f[k] < b.len() && a[k] == b[f[k]]
}

/// Images connected in `a` are connected where `f` takes them in `b`.
proof fn lemma_connected_maps(a: Seq<ImageView>, opts: GroupOptions, b: Seq<ImageView>, f: Seq<int>, i: int, j: int)
    requires
        maps_into(a, b, f),
        connected(a, opts, i, j),
    ensures
        connected(b, opts, f[i], f[j]),
{
    let p = choose|p: Seq<int>| chain_between(a, opts, p, i, j);
    let q = p.map_values(|x: int| f[x]);
    assert forall|k: int| 0 <= k < q.len() implies 0 <= #[trigger] q[k] < b.len() by {
        assert(0 <= p[k] < a.len());
    }
    assert forall|k: int| 0 <= k < q.len() - 1 implies #[trigger] chain_step(b, opts, q, k) by {
        assert(chain_step(a, opts, p, k));
        assert(0 <= p[k] < a.len() && 0 <= p[k + 1] < a.len());
    }
    assert(chain_between(b, opts, q, f[i], f[j]));
}

/// The positions of `s` that `sigma` reaches, each mapped back to where it
/// is reached.
spec fn inverse(sigma: Seq<int>, n: nat) -> Seq<int> {
    Seq::new(n, |x: int| choose|k: int| 0 <= k < sigma.len() && #[trigger] sigma[k] == x)
}

/// Listing the images again in the first order undoes a reordering.
proof fn lemma_inverse(s: Seq<ImageView>, t: Seq<ImageView>, sigma: Seq<int>)
    requires
        relists(s, t, sigma),
    ensures
        s.len() == t.len(),
        maps_into(t, s, sigma),
        maps_into(s, t, inverse(sigma, s.len())),
        forall|x: int| 0 <= x < s.len() ==> sigma[#[trigger] inverse(sigma, s.len())[x]] == x,
        forall|k: int| 0 <= k < t.len() ==> inverse(sigma, s.len())[#[trigger] sigma[k]] == k,
{
    lemma_relisted_totals(s, t, sigma);
    let inv = inverse(sigma, s.len());
    assert forall|x: int| 0 <= x < s.len() implies 0 <= #[trigger] inv[x] < t.len() && s[x] == t[inv[x]]
        && sigma[inv[x]] == x by {
        assert(hits(sigma, x));
    }
    assert forall|k: int| 0 <= k < t.len() implies inv[#[trigger] sigma[k]] == k by {
        let x = sigma[k];
        assert(hits(sigma, x));
        let k2 = inv[x];
        assert(sigma[k2] == x);
    }
}

/// Two groups hold the same images, with the same confidence and the same
/// total size.
pub open spec fn same_group(a: DupGroupView, b: DupGroupView) -> bool {
    &&& a.images.to_multiset() == b.images.to_multiset()
    &&& a.confidence == b.confidence
    &&& a.total_size == b.total_size
}

/// One of the groups `gs` is the same group as `g`.
pub open spec fn found_in(g: DupGroupView, gs: Seq<DupGroupView>) -> bool {
    exists|h: int| 0 <= h < gs.len() && #[trigger] same_group(g, gs[h])
}

/// A class of `s` and a class of `t` whose members correspond through the
/// reordering list the same images.
proof fn lemma_class_relisted(s: Seq<ImageView>, opts: GroupOptions, t: Seq<ImageView>, sigma: Seq<int>, c: Seq<usize>, d: Seq<usize>) -> (pi: Seq<int>)
    requires
        s.len() <= usize::MAX,
        relists(s, t, sigma),
        is_component(s, opts, c),
        is_component(t, opts, d),
        forall|y: int| 0 <= y < t.len() ==> (#[trigger] d.contains(y as usize) <==> c.contains(sigma[y] as usize)),
    ensures
        relists(members(s, c), members(t, d), pi),
{
    lemma_inverse(s, t, sigma);
    let inv = inverse(sigma, s.len());
    let m1 = members(s, c);
    let m2 = members(t, d);
    let pi = Seq::new(d.len(), |k: int| choose|j: int| 0 <= j < c.len() && c[j] as int == sigma[d[k] as int]);
    assert forall|k: int| 0 <= k < d.len() implies 0 <= #[trigger] pi[k] < c.len()
        && c[pi[k]] as int == sigma[d[k] as int] by {
        let y = d[k] as int;
        assert(y < t.len());
        assert(d.contains(y as usize));
        assert(c.contains(sigma[y] as usize));
        let j0 = choose|j: int| 0 <= j < c.len() && c[j] == sigma[y] as usize;
        assert(0 <= sigma[y] < s.len());
        assert(c[j0] as int == sigma[d[k] as int]);
    }
    assert forall|k: int| 0 <= k < m2.len() implies 0 <= #[trigger] pi[k] < m1.len() && m2[k] == m1[pi[k]] by {
        assert(c[pi[k]] as int == sigma[d[k] as int]);
        assert(d[k] < t.len());
    }
    assert forall|k1: int, k2: int|
        0 <= k1 < m2.len() && 0 <= k2 < m2.len() && k1 != k2 implies #[trigger] pi[k1] != #[trigger] pi[k2] by {
        assert(c[pi[k1]] as int == sigma[d[k1] as int]);
        assert(c[pi[k2]] as int == sigma[d[k2] as int]);
        assert(d[k1] != d[k2]) by {
            if k1 < k2 {
                assert(d[k1] < d[k2]);
            } else {
                assert(d[k2] < d[k1]);
            }
        }
        assert(d[k1] < t.len() && d[k2] < t.len());
    }
    assert forall|j: int| 0 <= j < m1.len() implies #[trigger] hits(pi, j) by {
        let x = c[j] as int;
        assert(x < s.len());
        let y = inv[x];
        assert(sigma[y] == x);
        assert(c.contains(x as usize));
        assert(d.contains(y as usize));
        let k = choose|k: int| 0 <= k < d.len() && d[k] == y as usize;
        assert(c[pi[k]] as int == x);
        assert(pi[k] == j) by {
            if pi[k] < j {
                assert(c[pi[k]] < c[j]);
            } else if pi[k] > j {
                assert(c[j] < c[pi[k]]);
            }
        }
    }
    pi
}

/// Each group of the images `s` is also a group of the images `t`, which
/// list the same images in another order.
proof fn lemma_group_found(
    s: Seq<ImageView>, opts: GroupOptions,
    t: Seq<ImageView>,
    sigma: Seq<int>,
    p1: Seq<Seq<usize>>,
    gs1: Seq<DupGroupView>,
    p2: Seq<Seq<usize>>,
    gs2: Seq<DupGroupView>,
    g1: int,
)
    requires
        s.len() <= usize::MAX,
        relists(s, t, sigma),
        grouping_of(s, opts, p1, gs1),
        grouping_of(t, opts, p2, gs2),
        0 <= g1 < gs1.len(),
    ensures
        found_in(gs1[g1], gs2),
{
    lemma_inverse(s, t, sigma);
    let inv = inverse(sigma, s.len());
    let c = p1[g1];
    assert(c.len() >= 2 && is_component(s, opts, c));
    let a = c[0] as int;
    let b = c[1] as int;
    assert(c[0] < c[1]);
    assert(c.contains(c[1]));
    assert(connected(s, opts, a, b));
    lemma_connected_maps(s, opts, t, inv, a, b);
    let ya = inv[a];
    let yb = inv[b];
    assert(sigma[ya] == a && sigma[yb] == b);
    assert(0 <= ya < t.len() && 0 <= yb < t.len() && ya != yb);
    assert(connected(t, opts, ya, yb));
    let g2 = choose|g: int| 0 <= g < p2.len() && #[trigger] p2[g].contains(ya as usize);
    let d = p2[g2];
    assert(d.len() >= 2 && is_component(t, opts, d));
    assert(connected(t, opts, d[0] as int, ya));
    assert forall|y: int| 0 <= y < t.len() implies (#[trigger] d.contains(y as usize)
        <==> c.contains(sigma[y] as usize)) by {
        let x = sigma[y];
        assert(0 <= x < s.len());
        if d.contains(y as usize) {
            assert(connected(t, opts, d[0] as int, y));
            lemma_connected_sym(t, opts, d[0] as int, ya);
            lemma_connected_trans(t, opts, ya, d[0] as int, y);
            lemma_connected_maps(t, opts, s, sigma, ya, y);
            assert(connected(s, opts, a, x));
        }
        if c.contains(x as usize) {
            assert(connected(s, opts, a, x));
            lemma_connected_maps(s, opts, t, inv, a, x);
            assert(inv[x] == y);
            lemma_connected_trans(t, opts, d[0] as int, ya, y);
        }
    }
    let m1 = members(s, c);
    let m2 = members(t, d);
    let pi = lemma_class_relisted(s, opts, t, sigma, c, d);
    assert(relists(m1, m2, pi));
    lemma_relisted_totals(m1, m2, pi);
    lemma_relisted_repeats(m1, m2, pi);
    assert(describes(gs1[g1], m1));
    assert(describes(gs2[g2], m2));
    assert(same_group(gs1[g1], gs2[g2]));
}

/// No two groups of one grouping hold the same images.
pub proof fn lemma_groups_differ(s: Seq<ImageView>, opts: GroupOptions, parts: Seq<Seq<usize>>, gs: Seq<DupGroupView>)
    requires
        grouping_of(s, opts, parts, gs),
    ensures
        forall|g1: int, g2: int|
            0 <= g1 < gs.len() && 0 <= g2 < gs.len() && g1 != g2 ==> !#[trigger] same_group(gs[g1], gs[g2]),
{
    broadcast use vstd::seq_lib::group_to_multiset_ensures;
    assert forall|g1: int, g2: int|
        0 <= g1 < gs.len() && 0 <= g2 < gs.len() && g1 != g2 implies !#[trigger] same_group(gs[g1], gs[g2]) by {
        if same_group(gs[g1], gs[g2]) {
            let c1 = parts[g1];
            let c2 = parts[g2];
            assert(c1.len() >= 2 && is_component(s, opts, c1));
            assert(c2.len() >= 2 && is_component(s, opts, c2));
            let m1 = members(s, c1);
            let m2 = members(s, c2);
            assert(describes(gs[g1], m1));
            assert(describes(gs[g2], m2));
            let i = c1[0] as int;
            assert(m1[0] == s[i]);
            assert(m1.contains(s[i]));
            assert(m2.to_multiset().count(s[i]) > 0);
            assert(m2.contains(s[i]));
            let k = choose|k: int| 0 <= k < m2.len() && m2[k] == s[i];
            let j = c2[k] as int;
            assert(!c2.contains(c1[0]));
            assert(c2.contains(c2[k]));
            assert(i != j);
            lemma_connected_link(s, opts, i, j);
            lemma_connected_share_class(s, opts, parts, i, j);
            let g = choose|g: int| 0 <= g < parts.len() && #[trigger] parts[g].contains(i as usize)
                && parts[g].contains(j as usize);
            if g != g1 {
                assert(!parts[g].contains(c1[0]));
            } else {
                let w = choose|w: int| 0 <= w < c1.len() && c1[w] == j as usize;
                assert(!c2.contains(c1[w]));
            }
        }
    }
}

/// The groups do not depend on the order in which the images come: when `t`
/// lists the images of `s` in another order, every group found among `s` is
/// found among `t`, with the same images, confidence and total size, every
/// group found among `t` is found among `s`, and within each grouping no two
/// groups are the same, so the groups match one to one. (The lists are held
/// in memory, so their length fits in `usize`.)
pub proof fn lemma_group_order_independent(
    s: Seq<ImageView>, opts: GroupOptions,
    t: Seq<ImageView>,
    sigma: Seq<int>,
    p1: Seq<Seq<usize>>,
    gs1: Seq<DupGroupView>,
    p2: Seq<Seq<usize>>,
    gs2: Seq<DupGroupView>,
)
    requires
        s.len() <= usize::MAX,
        relists(s, t, sigma),
        grouping_of(s, opts, p1, gs1),
        grouping_of(t, opts, p2, gs2),
    ensures
        forall|g: int| 0 <= g < gs1.len() ==> #[trigger] found_in(gs1[g], gs2),
        forall|g: int| 0 <= g < gs2.len() ==> #[trigger] found_in(gs2[g], gs1),
        forall|g1: int, g2: int|
            0 <= g1 < gs1.len() && 0 <= g2 < gs1.len() && g1 != g2 ==> !#[trigger] same_group(gs1[g1], gs1[g2]),
        forall|g1: int, g2: int|
            0 <= g1 < gs2.len() && 0 <= g2 < gs2.len() && g1 != g2 ==> !#[trigger] same_group(gs2[g1], gs2[g2]),
{
    lemma_groups_differ(s, opts, p1, gs1);
    lemma_groups_differ(t, opts, p2, gs2);
    lemma_inverse(s, t, sigma);
    let inv = inverse(sigma, s.len());
    assert(relists(t, s, inv)) by {
        assert forall|k: int| 0 <= k < t.len() implies #[trigger] hits(inv, k) by {
            assert(inv[sigma[k]] == k);
        }
        assert forall|x1: int, x2: int|
            0 <= x1 < s.len() && 0 <= x2 < s.len() && x1 != x2 implies #[trigger] inv[x1] != #[trigger] inv[x2] by {
            assert(sigma[inv[x1]] == x1);
            assert(sigma[inv[x2]] == x2);
        }
    }
    assert forall|g: int| 0 <= g < gs1.len() implies #[trigger] found_in(gs1[g], gs2) by {
        lemma_group_found(s, opts, t, sigma, p1, gs1, p2, gs2, g);
    }
    assert forall|g: int| 0 <= g < gs2.len() implies #[trigger] found_in(gs2[g], gs1) by {
        lemma_group_found(t, opts, s, inv, p2, gs2, p1, gs1, g);
    }
}

/// The indices below `n`, in increasing order, of the images of `s`
/// connected to image `x`.
spec fn connected_below(s: Seq<ImageView>, opts: GroupOptions, x: int, n: nat) -> Seq<usize>
    decreases n,
{
    if n == 0 {
        Seq::empty()
    } else {
        let rest = connected_below(s, opts, x, (n - 1) as nat);
        if connected(s, opts, x, n - 1) { rest.push((n - 1) as usize) } else { rest }
    }
}

/// The images connected to `x` below `n`, listed in increasing order.
proof fn lemma_connected_below(s: Seq<ImageView>, opts: GroupOptions, x: int, n: nat)
    requires
        n <= s.len(),
        s.len() <= usize::MAX,
    ensures
        forall|k: int| 0 <= k < connected_below(s, opts, x, n).len() ==> #[trigger] connected_below(s, opts, x, n)[k] < n,
        forall|k1: int, k2: int|
            0 <= k1 < k2 < connected_below(s, opts, x, n).len() ==> connected_below(s, opts, x, n)[k1] < connected_below(s, opts, x, n)[k2],
        forall|j: int| 0 <= j < s.len() ==> (#[trigger] connected_below(s, opts, x, n).contains(j as usize) <==> (j < n
            && connected(s, opts, x, j))),
    decreases n,
{
    if n > 0 {
        lemma_connected_below(s, opts, x, (n - 1) as nat);
        let rest = connected_below(s, opts, x, (n - 1) as nat);
        let q = connected_below(s, opts, x, n);
        assert forall|j: int| 0 <= j < s.len() implies (#[trigger] q.contains(j as usize) <==> (j < n && connected(
            s, opts,
            x,
            j,
        ))) by {
            if connected(s, opts, x, n - 1) {
                assert(q == rest.push((n - 1) as usize));
                if q.contains(j as usize) {
                    let w = choose|w: int| 0 <= w < q.len() && q[w] == j as usize;
                    if w < rest.len() {
                        assert(rest.contains(j as usize));
                    }
                }
                if j < n && connected(s, opts, x, j) && j < n - 1 {
                    assert(rest.contains(j as usize));
                    let w = choose|w: int| 0 <= w < rest.len() && rest[w] == j as usize;
                    assert(q[w] == j as usize);
                }
                if j == n - 1 {
                    assert(q[q.len() - 1] == j as usize);
                }
            } else {
                assert(q == rest);
            }
        }
    }
}

/// Whether [`group`] can take a list of images does not depend on their
/// order: when `t` lists the images of `s` in another order and every image
/// connected to another has a pixel count that fits, and every class a total
/// size that fits, the same holds of `t`.
pub proof fn lemma_fits_reordered(s: Seq<ImageView>, opts: GroupOptions, t: Seq<ImageView>, sigma: Seq<int>)
    requires
        s.len() <= usize::MAX,
        relists(s, t, sigma),
        areas_fit_in_classes(s, opts),
        sizes_fit(s, opts),
    ensures
        areas_fit_in_classes(t, opts),
        sizes_fit(t, opts),
{
    lemma_inverse(s, t, sigma);
    let inv = inverse(sigma, s.len());
    assert forall|i: int, j: int|
        0 <= i < t.len() && 0 <= j < t.len() && i != j && #[trigger] connected(t, opts, i, j) implies area_fits(t[i]) by {
        lemma_connected_maps(t, opts, s, sigma, i, j);
        assert(inverse(sigma, s.len())[sigma[i]] == i);
        assert(inverse(sigma, s.len())[sigma[j]] == j);
        assert(sigma[i] != sigma[j]);
        assert(connected(s, opts, sigma[i], sigma[j]));
    }
    assert forall|p: Seq<usize>| #[trigger] is_component(t, opts, p) && p.len() >= 2 implies sum_sizes(members(t, p))
        <= u64::MAX by {
        let x = sigma[p[0] as int];
        assert(p[0] < t.len());
        lemma_connected_below(s, opts, x, s.len());
        let q = connected_below(s, opts, x, s.len());
        lemma_connected_refl(s, opts, x);
        assert(q.contains(x as usize));
        assert(q.len() >= 1);
        assert(q[0] < s.len());
        let j0 = q[0] as int;
        assert(q.contains(j0 as usize));
        assert(connected(s, opts, x, j0));
        assert forall|j: int| 0 <= j < s.len() implies (#[trigger] connected(s, opts, q[0] as int, j) <==> q.contains(
            j as usize,
        )) by {
            lemma_connected_sym(s, opts, x, q[0] as int);
            if connected(s, opts, q[0] as int, j) {
                lemma_connected_trans(s, opts, x, q[0] as int, j);
            }
            if q.contains(j as usize) {
                lemma_connected_trans(s, opts, q[0] as int, x, j);
            }
        }
        assert(is_component(s, opts, q));
        assert(p.contains(p[0]));
        assert(connected(t, opts, p[0] as int, p[0] as int));
        assert forall|y: int| 0 <= y < t.len() implies (#[trigger] p.contains(y as usize) <==> q.contains(
            sigma[y] as usize,
        )) by {
            let sy = sigma[y];
            assert(0 <= sy < s.len());
            if p.contains(y as usize) {
                assert(connected(t, opts, p[0] as int, y));
                lemma_connected_maps(t, opts, s, sigma, p[0] as int, y);
            }
            if q.contains(sy as usize) {
                assert(connected(s, opts, x, sy));
                lemma_connected_maps(s, opts, t, inv, x, sy);
                assert(inv[x] == p[0] as int);
                assert(inv[sy] == y);
            }
        }
        let pi = lemma_class_relisted(s, opts, t, sigma, q, p);
        lemma_relisted_totals(members(s, q), members(t, p), pi);
    }
}

/// The metadata signature of an image: the date it was taken, or the file
/// modification date only when no date taken is known, then the width and
/// height, then the camera (empty when unknown), as
/// `date|WIDTHxHEIGHT|camera`; none without a date or without both
/// dimensions.
pub proof fn lemma_signature_of_image(im: ImageView)
    ensures
        ({
            let cam = if im.camera is Some { im.camera->0 } else { Seq::<char>::empty() };
            im.date_taken is Some && im.width is Some && im.height is Some ==> image_signature(im) == Some(
                im.date_taken->0 + seq!['|'] + decimal(im.width->0 as nat) + seq!['x'] + decimal(
                    im.height->0 as nat,
                ) + seq!['|'] + cam,
            )
        }),
        ({
            let cam = if im.camera is Some { im.camera->0 } else { Seq::<char>::empty() };
            im.date_taken is None && im.modified is Some && im.width is Some && im.height is Some
                ==> image_signature(im) == Some(
                im.modified->0 + seq!['|'] + decimal(im.width->0 as nat) + seq!['x'] + decimal(
                    im.height->0 as nat,
                ) + seq!['|'] + cam,
            )
        }),
        (im.date_taken is None && im.modified is None) || im.width is None || im.height is None
            ==> image_signature(im) is None,
{
}

/// Two records of one shot (the same date taken, dimensions and camera) are
/// tied, whatever their file modification dates, names or contents.
pub proof fn lemma_same_shot_tied(opts: GroupOptions, a: ImageView, b: ImageView)
    requires
        a.date_taken is Some,
        a.date_taken == b.date_taken,
        a.width is Some,
        a.width == b.width,
        a.height is Some,
        a.height == b.height,
        a.camera == b.camera,
    ensures
        image_signature(a) is Some,
        image_signature(a) == image_signature(b),
        linked(opts, a, b),
{
    lemma_signature_of_image(a);
    lemma_signature_of_image(b);
}

/// The only ties between two images: the same content hash, the same known
/// signature, or, when similar images are searched for, difference hashes
/// that are both known and differ in at most the threshold's number of bits.
pub proof fn lemma_tie_reasons(opts: GroupOptions, a: ImageView, b: ImageView)
    ensures
        linked(opts, a, b) <==> (a.hash == b.hash || (image_signature(a) is Some && image_signature(a)
            == image_signature(b)) || (opts.buscar_similares && a.dhash is Some && b.dhash is Some
            && spec_hamming(a.dhash->0, b.dhash->0) <= opts.dhash_umbral)),
{
}

/// No other image shares image `i`'s content hash, nor its known signature,
/// nor (when similar images are searched for) a close difference hash.
pub open spec fn isolated(s: Seq<ImageView>, opts: GroupOptions, i: int) -> bool {
    forall|j: int|
        0 <= j < s.len() && j != i ==> {
            &&& (#[trigger] s[j]).hash != s[i].hash
            &&& !(image_signature(s[i]) is Some && image_signature(s[j]) == image_signature(s[i]))
            &&& !(opts.buscar_similares && s[i].dhash is Some && s[j].dhash is Some && spec_hamming(
                s[i].dhash->0,
                s[j].dhash->0,
            ) <= opts.dhash_umbral)
        }
}

/// A chain of ties that starts at an isolated image never leaves it.
proof fn lemma_chain_stays(s: Seq<ImageView>, opts: GroupOptions, p: Seq<int>, i: int, j: int, k: int)
    requires
        chain_between(s, opts, p, i, j),
        0 <= i < s.len(),
        isolated(s, opts, i),
        0 <= k < p.len(),
    ensures
        p[k] == i,
    decreases k,
{
    if k > 0 {
        lemma_chain_stays(s, opts, p, i, j, k - 1);
        assert(chain_step(s, opts, p, k - 1));
        let x = p[k];
        assert(0 <= x < s.len());
        if x != i {
            assert(s[x].hash != s[i].hash);
            assert(!linked(opts, s[i], s[x]));
        }
    }
}

/// An image that shares its content hash, its signature and (when similar
/// images are searched for) its difference hash with no other image is in no
/// group.
pub proof fn lemma_isolated_image_ungrouped(s: Seq<ImageView>, opts: GroupOptions, parts: Seq<Seq<usize>>, i: int)
    requires
        is_duplicate_partition(s, opts, parts),
        0 <= i < s.len(),
        isolated(s, opts, i),
    ensures
        forall|g: int| 0 <= g < parts.len() ==> !(#[trigger] parts[g]).contains(i as usize),
{
    assert forall|j: int| 0 <= j < s.len() && j != i implies !connected(s, opts, i, j) by {
        if connected(s, opts, i, j) {
            let p = choose|p: Seq<int>| chain_between(s, opts, p, i, j);
            lemma_chain_stays(s, opts, p, i, j, p.len() - 1);
        }
    }
    lemma_unique_image_ungrouped(s, opts, parts, i);
}

/// In a list given best first, an image never comes before one with more
/// pixels (a missing dimension counting as zero); among images of the same
/// pixel count, one without a date taken never comes after one with a date,
/// and dated ones come in non-decreasing order of date.
pub proof fn lemma_best_first_order(v: Seq<ImageView>, i: int, j: int)
    requires
        best_first(v),
        0 <= i < j < v.len(),
    ensures
        ({
            let wi: nat = if v[i].width is Some { v[i].width->0 as nat } else { 0 };
            let hi: nat = if v[i].height is Some { v[i].height->0 as nat } else { 0 };
            let wj: nat = if v[j].width is Some { v[j].width->0 as nat } else { 0 };
            let hj: nat = if v[j].height is Some { v[j].height->0 as nat } else { 0 };
            &&& wi * hi >= wj * hj
            &&& wi * hi == wj * hj && v[i].date_taken is Some ==> v[j].date_taken is Some
            &&& wi * hi == wj * hj && v[i].date_taken is Some ==> lex_order(
                v[i].date_taken->0,
                v[j].date_taken->0,
            ) <= 0
        }),
{
    assert(best_order(v[i], v[j]) <= 0);
}

} // verus!
