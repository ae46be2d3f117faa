//! Which mounts have to be watched so that the files of the configured
//! directories are scanned.

use crate::config::AbsoluteDirPath;
use crate::path::{
    components, copy_range, is_name, parts_start_with, path_components, path_starts_with,
    plain_path, plain_path_components, views, SLASH,
};
use crate::text::same_text;
use vstd::prelude::*;

verus! {

/// A mounted file system.
#[derive(Debug)]
pub struct Mount {
    /// The kind of the file system.
    pub fs_type: String,
    /// Where it is mounted.
    pub mount_point: Vec<u8>,
}

/// Whether a kind of file system holds no files that could be infected.
pub open spec fn pseudo_fs(fs_type: Seq<char>) -> bool {
    ||| fs_type == "proc"@
    ||| fs_type == "sysfs"@
    ||| fs_type == "devtmpfs"@
    ||| fs_type == "cgroup"@
    ||| fs_type == "cgroup2"@
    ||| fs_type == "pstore"@
}

/// Tells whether a kind of file system holds no files that could be infected.
pub fn is_pseudo_fs(fs_type: &str) -> (res: bool)
    ensures
        res == pseudo_fs(fs_type@),
{
    same_text(fs_type, "proc") || same_text(fs_type, "sysfs") || same_text(fs_type, "devtmpfs")
        || same_text(fs_type, "cgroup") || same_text(fs_type, "cgroup2") || same_text(
        fs_type,
        "pstore",
    )
}

/// The mount points of the file systems that hold files, in their order.
pub open spec fn file_mounts(mounts: Seq<Mount>) -> Seq<Seq<u8>>
    decreases mounts.len(),
{
    if mounts.len() == 0 {
        seq![]
    } else if pseudo_fs(mounts.last().fs_type@) {
        file_mounts(mounts.drop_last())
    } else {
        file_mounts(mounts.drop_last()).push(mounts.last().mount_point@)
    }
}

/// The mount points of the file systems that hold files, in their order.
pub fn mount_points(mounts: &Vec<Mount>) -> (res: Vec<Vec<u8>>)
    ensures
        views(res@) == file_mounts(mounts@),
{
    let mut res: Vec<Vec<u8>> = Vec::new();
    let mut i: usize = 0;
    assert(views(res@) =~= file_mounts(mounts@.take(0)));
    while i < mounts.len()
        invariant
            i <= mounts@.len(),
            views(res@) == file_mounts(mounts@.take(i as int)),
        decreases mounts@.len() - i,
    {
        let ghost before = res@;
        assert(mounts@.take(i + 1).drop_last() =~= mounts@.take(i as int));
        if !is_pseudo_fs(mounts[i].fs_type.as_str()) {
            let copy = copy_range(mounts[i].mount_point.as_slice(), 0, mounts[i].mount_point.len());
            assert(copy@ =~= mounts@[i as int].mount_point@);
            res.push(copy);
            assert(views(res@) =~= views(before).push(copy@));
        }
        i += 1;
    }
    assert(mounts@.take(i as int) =~= mounts@);
    res
}

/// A mount point is left out only because of the kind of its file system.
pub proof fn file_mounts_are_the_others(mounts: Seq<Mount>, point: Seq<u8>)
    ensures
        file_mounts(mounts).contains(point) <==> exists|i: int|
            0 <= i < mounts.len() && !pseudo_fs((#[trigger] mounts[i]).fs_type@)
                && mounts[i].mount_point@ == point,
    decreases mounts.len(),
{
    let all = file_mounts(mounts);
    if mounts.len() > 0 {
        let short = mounts.drop_last();
        let before = file_mounts(short);
        file_mounts_are_the_others(short, point);
        if before.contains(point) {
            let i = choose|i: int|
                0 <= i < short.len() && !pseudo_fs((#[trigger] short[i]).fs_type@)
                    && short[i].mount_point@ == point;
            assert(mounts[i] == short[i]);
            let k = choose|k: int| 0 <= k < before.len() && before[k] == point;
            assert(all[k] == point);
        }
        if all.contains(point) && !before.contains(point) {
            let k = choose|k: int| 0 <= k < all.len() && all[k] == point;
            if k < before.len() {
                assert(before[k] == point);
            }
            assert(mounts[mounts.len() - 1].mount_point@ == point);
        }
        if exists|i: int|
            0 <= i < mounts.len() && !pseudo_fs((#[trigger] mounts[i]).fs_type@)
                && mounts[i].mount_point@ == point {
            let i = choose|i: int|
                0 <= i < mounts.len() && !pseudo_fs((#[trigger] mounts[i]).fs_type@)
                    && mounts[i].mount_point@ == point;
            if i < short.len() {
                assert(short[i] == mounts[i]);
            } else {
                assert(all[all.len() - 1] == point);
            }
        }
    }
}

/// How deep a mount point lies.
pub open spec fn depth(point: Seq<u8>) -> nat {
    components(point).len()
}

/// Whether a mount point is the deepest one that holds a directory, and the
/// last one of these in the list.
pub open spec fn is_closest(points: Seq<Seq<u8>>, dir: Seq<u8>, i: int) -> bool {
    &&& 0 <= i < points.len()
    &&& path_starts_with(dir, points[i])
    &&& forall|j: int|
        0 <= j < points.len() && path_starts_with(dir, #[trigger] points[j]) ==> depth(points[j])
            <= depth(points[i]) && (i < j ==> depth(points[j]) < depth(points[i]))
}

/// The deepest mount point that holds a directory.
pub open spec fn closest(points: Seq<Seq<u8>>, dir: Seq<u8>) -> Option<int> {
    if exists|i: int| is_closest(points, dir, i) {
        Some(choose|i: int| is_closest(points, dir, i))
    } else {
        None
    }
}

/// At most one mount point is the closest one.
proof fn lemma_closest_unique(points: Seq<Seq<u8>>, dir: Seq<u8>, i: int, j: int)
    requires
        is_closest(points, dir, i),
        is_closest(points, dir, j),
    ensures
        i == j,
{
    assert(path_starts_with(dir, points[i]));
    assert(path_starts_with(dir, points[j]));
}

/// Finds the deepest mount point that holds a directory.
pub fn closest_mount(points: &Vec<Vec<u8>>, dir: &[u8]) -> (res: Option<usize>)
    ensures
        match res {
            Some(i) => closest(views(points@), dir@) == Some(i as int),
            None => closest(views(points@), dir@) is None && forall|j: int|
                0 <= j < points@.len() ==> !path_starts_with(dir@, #[trigger] views(points@)[j]),
        },
{
    let dir_parts: Vec<Vec<u8>> = path_components(dir);
    let ghost all = views(points@);
    let mut best: Option<(usize, usize)> = None;
    let mut i: usize = 0;
    while i < points.len()
        invariant
            all == views(points@),
            views(dir_parts@) == components(dir@),
            i <= points@.len(),
            match best {
                Some((b, deep)) => {
                    &&& b < i
                    &&& deep == depth(all[b as int])
                    &&& path_starts_with(dir@, all[b as int])
                    &&& forall|j: int|
                        0 <= j < i && path_starts_with(dir@, #[trigger] all[j]) ==> depth(all[j])
                            <= deep && (b < j ==> depth(all[j]) < deep)
                },
                None => forall|j: int| 0 <= j < i ==> !path_starts_with(dir@, #[trigger] all[j]),
            },
        decreases points@.len() - i,
    {
        let parts: Vec<Vec<u8>> = path_components(points[i].as_slice());
        assert(views(parts@) == components(all[i as int]));
        if parts_start_with(&dir_parts, &parts) {
            let deeper: bool = match best {
                Some((_, deep)) => deep <= parts.len(),
                None => true,
            };
            if deeper {
                best = Some((i, parts.len()));
            }
        }
        i += 1;
    }
    match best {
        Some((b, _)) => {
            proof {
                assert(is_closest(all, dir@, b as int));
                lemma_closest_unique(all, dir@, b as int, closest(all, dir@)->0);
            }
            Some(b)
        },
        None => {
            assert forall|j: int| !is_closest(all, dir@, j) by {}
            None
        },
    }
}

/// The bytes of every directory in a list.
pub open spec fn dir_views(dirs: Seq<AbsoluteDirPath>) -> Seq<Seq<u8>> {
    dirs.map_values(|dir: AbsoluteDirPath| dir@)
}

/// Whether a mount point lies at or below one of the given directories.
pub open spec fn below_any(point: Seq<u8>, dirs: Seq<Seq<u8>>) -> bool {
    exists|k: int| 0 <= k < dirs.len() && path_starts_with(point, #[trigger] dirs[k])
}

/// Whether a mount point lies at or below a directory and not at or below an
/// excluded one.
pub open spec fn is_inner(point: Seq<u8>, dir: Seq<u8>, excluded: Seq<Seq<u8>>) -> bool {
    path_starts_with(point, dir) && !below_any(point, excluded)
}

/// The first `n` mount points, as far as they lie below a directory and not
/// below an excluded one.
pub open spec fn inner_mounts(
    points: Seq<Seq<u8>>,
    dir: Seq<u8>,
    excluded: Seq<Seq<u8>>,
    n: nat,
) -> Seq<int>
    decreases n,
{
    if n == 0 {
        seq![]
    } else {
        let before = inner_mounts(points, dir, excluded, (n - 1) as nat);
        if is_inner(points[n - 1], dir, excluded) {
            before.push(n - 1)
        } else {
            before
        }
    }
}

/// The mounts that are wanted for a directory: the one that holds it, and then
/// those below it that are not excluded.
pub open spec fn wanted(points: Seq<Seq<u8>>, dir: Seq<u8>, excluded: Seq<Seq<u8>>) -> Seq<int> {
    (match closest(points, dir) {
        Some(i) => seq![i],
        None => seq![],
    }) + inner_mounts(points, dir, excluded, points.len())
}

/// Whether a mount point with the same components is among the targets.
pub open spec fn is_target(points: Seq<Seq<u8>>, targets: Seq<int>, i: int) -> bool {
    exists|k: int|
        0 <= k < targets.len() && components(points[#[trigger] targets[k]]) == components(points[i])
}

/// The targets with some more mounts, in their order and each mount point only
/// once.
pub open spec fn with_targets(points: Seq<Seq<u8>>, targets: Seq<int>, more: Seq<int>) -> Seq<int>
    decreases more.len(),
{
    if more.len() == 0 {
        targets
    } else {
        let before = with_targets(points, targets, more.drop_last());
        if is_target(points, before, more.last()) {
            before
        } else {
            before.push(more.last())
        }
    }
}

/// The mounts that have to be watched for the given directories.
pub open spec fn targets_for(
    points: Seq<Seq<u8>>,
    dirs: Seq<Seq<u8>>,
    excluded: Seq<Seq<u8>>,
) -> Seq<int>
    decreases dirs.len(),
{
    if dirs.len() == 0 {
        seq![]
    } else {
        with_targets(
            points,
            targets_for(points, dirs.drop_last(), excluded),
            wanted(points, dirs.last(), excluded),
        )
    }
}

/// The numbers of a list as mathematical integers.
pub open spec fn indices(list: Seq<usize>) -> Seq<int> {
    list.map_values(|i: usize| i as int)
}

/// Tells whether a path lies at or below one of the given directories.
fn lies_below_any(point: &[u8], dirs: &Vec<AbsoluteDirPath>) -> (res: bool)
    ensures
        res == below_any(point@, dir_views(dirs@)),
{
    let parts: Vec<Vec<u8>> = path_components(point);
    let ghost all = dir_views(dirs@);
    let mut i: usize = 0;
    while i < dirs.len()
        invariant
            all == dir_views(dirs@),
            views(parts@) == components(point@),
            i <= dirs@.len(),
            forall|k: int| 0 <= k < i ==> !path_starts_with(point@, #[trigger] all[k]),
        decreases dirs@.len() - i,
    {
        assert(all[i as int] == dirs@[i as int]@);
        if parts_start_with(&parts, &path_components(dirs[i].as_bytes())) {
            assert(path_starts_with(point@, all[i as int]));
            return true;
        }
        i += 1;
    }
    false
}

/// Adds a mount to the targets unless its mount point is there already.
fn add_target(points: &Vec<Vec<u8>>, targets: &mut Vec<usize>, i: usize)
    requires
        i < points@.len(),
        forall|k: int| 0 <= k < old(targets)@.len() ==> old(targets)@[k] < points@.len(),
    ensures
        forall|k: int| 0 <= k < final(targets)@.len() ==> final(targets)@[k] < points@.len(),
        indices(final(targets)@) == (if is_target(
            views(points@),
            indices(old(targets)@),
            i as int,
        ) {
            indices(old(targets)@)
        } else {
            indices(old(targets)@).push(i as int)
        }),
{
    let ghost all = views(points@);
    let ghost before = indices(targets@);
    let parts: Vec<Vec<u8>> = path_components(points[i].as_slice());
    assert(views(parts@) == components(all[i as int]));
    let mut k: usize = 0;
    while k < targets.len()
        invariant
            all == views(points@),
            targets@ == old(targets)@,
            before == indices(targets@),
            i < points@.len(),
            views(parts@) == components(all[i as int]),
            k <= targets@.len(),
            forall|j: int| 0 <= j < targets@.len() ==> targets@[j] < points@.len(),
            forall|j: int|
                0 <= j < k ==> components(all[#[trigger] before[j]]) != components(all[i as int]),
        decreases targets@.len() - k,
    {
        let other: Vec<Vec<u8>> = path_components(points[targets[k]].as_slice());
        assert(views(other@) == components(all[before[k as int]]));
        if other.len() == parts.len() && parts_start_with(&other, &parts) {
            assert(views(other@).subrange(0, views(parts@).len() as int) =~= views(other@));
            assert(is_target(all, before, i as int));
            return;
        }
        assert(components(all[before[k as int]]) != components(all[i as int])) by {
            if views(other@) == views(parts@) {
                assert(views(parts@).subrange(0, views(parts@).len() as int) =~= views(parts@));
            }
        }
        k += 1;
    }
    targets.push(i);
    assert(indices(targets@) =~= before.push(i as int));
}

/// Chooses the mounts that have to be watched: for every directory the mount
/// that holds it, and the mounts below it that do not lie at or below an
/// excluded directory. The result holds places in the list of mount points.
pub fn mark_targets(
    points: &Vec<Vec<u8>>,
    dirs: &Vec<AbsoluteDirPath>,
    excluded: &Vec<AbsoluteDirPath>,
) -> (res: Vec<usize>)
    ensures
        indices(res@) == targets_for(views(points@), dir_views(dirs@), dir_views(excluded@)),
        forall|k: int| 0 <= k < res@.len() ==> res@[k] < points@.len(),
{
    let ghost all = views(points@);
    let ghost watched = dir_views(dirs@);
    let ghost barred = dir_views(excluded@);
    let mut res: Vec<usize> = Vec::new();
    let mut d: usize = 0;
    assert(indices(res@) =~= targets_for(all, watched.take(0), barred));
    while d < dirs.len()
        invariant
            all == views(points@),
            watched == dir_views(dirs@),
            barred == dir_views(excluded@),
            d <= dirs@.len(),
            indices(res@) == targets_for(all, watched.take(d as int), barred),
            forall|k: int| 0 <= k < res@.len() ==> res@[k] < points@.len(),
        decreases dirs@.len() - d,
    {
        let ghost start = indices(res@);
        let ghost dir = watched[d as int];
        assert(watched.take(d + 1).drop_last() =~= watched.take(d as int));
        let ghost head: Seq<int> = match closest(all, dir) {
            Some(i) => seq![i],
            None => seq![],
        };
        assert(with_targets(all, start, seq![]) == start);
        if let Some(b) = closest_mount(points, dirs[d].as_bytes()) {
            proof {
                assert(is_closest(all, dir, b as int));
                reveal_with_fuel(with_targets, 2);
                assert(head.drop_last() =~= seq![]);
            }
            add_target(points, &mut res, b);
        }
        let parts: Vec<Vec<u8>> = path_components(dirs[d].as_bytes());
        let mut i: usize = 0;
        assert(head + inner_mounts(all, dir, barred, 0) =~= head);
        while i < points.len()
            invariant
                all == views(points@),
                watched == dir_views(dirs@),
                barred == dir_views(excluded@),
                d < dirs@.len(),
                dir == watched[d as int],
                views(parts@) == components(dir),
                i <= points@.len(),
                indices(res@) == with_targets(
                    all,
                    start,
                    head + inner_mounts(all, dir, barred, i as nat),
                ),
                forall|k: int| 0 <= k < res@.len() ==> res@[k] < points@.len(),
            decreases points@.len() - i,
        {
            let ghost before = head + inner_mounts(all, dir, barred, i as nat);
            let point = points[i].as_slice();
            assert(point@ == all[i as int]);
            if parts_start_with(&path_components(point), &parts) && !lies_below_any(point, excluded)
            {
                proof {
                    let after = head + inner_mounts(all, dir, barred, (i + 1) as nat);
                    assert(after.drop_last() =~= before);
                    assert(after.last() == i as int);
                }
                add_target(points, &mut res, i);
            }
            i += 1;
        }
        d += 1;
    }
    assert(watched.take(d as int) =~= watched);
    res
}

/// Where a mount holds a directory, there is a closest one.
proof fn lemma_closest_exists(points: Seq<Seq<u8>>, dir: Seq<u8>, i: int) -> (b: int)
    requires
        0 <= i < points.len(),
        path_starts_with(dir, points[i]),
    ensures
        is_closest(points, dir, b),
    decreases points.len(),
{
    let short = points.drop_last();
    let last = points.len() - 1;
    let b = if exists|k: int| 0 <= k < short.len() && path_starts_with(dir, #[trigger] short[k]) {
        let k = choose|k: int| 0 <= k < short.len() && path_starts_with(dir, #[trigger] short[k]);
        let b = lemma_closest_exists(short, dir, k);
        if path_starts_with(dir, points[last]) && depth(points[b]) <= depth(points[last]) {
            last
        } else {
            b
        }
    } else {
        if i < last {
            assert(path_starts_with(dir, short[i]));
        }
        last
    };
    assert forall|j: int|
        0 <= j < points.len() && path_starts_with(dir, #[trigger] points[j]) implies depth(
        points[j],
    ) <= depth(points[b]) && (b < j ==> depth(points[j]) < depth(points[b])) by {
        if j < last {
            assert(short[j] == points[j]);
        }
    }
    b
}

/// The inner mounts are those among the first `n` that are inner.
proof fn lemma_inner_mounts(
    points: Seq<Seq<u8>>,
    dir: Seq<u8>,
    excluded: Seq<Seq<u8>>,
    n: nat,
)
    requires
        n <= points.len(),
    ensures
        forall|i: int|
            #![trigger points[i]]
            0 <= i < n && is_inner(points[i], dir, excluded) ==> inner_mounts(
                points,
                dir,
                excluded,
                n,
            ).contains(i),
        forall|k: int|
            #![trigger inner_mounts(points, dir, excluded, n)[k]]
            0 <= k < inner_mounts(points, dir, excluded, n).len() ==> {
                let i = inner_mounts(points, dir, excluded, n)[k];
                0 <= i < n && is_inner(points[i], dir, excluded)
            },
    decreases n,
{
    if n > 0 {
        lemma_inner_mounts(points, dir, excluded, (n - 1) as nat);
        let before = inner_mounts(points, dir, excluded, (n - 1) as nat);
        let after = inner_mounts(points, dir, excluded, n);
        assert forall|i: int|
            #![trigger points[i]]
            0 <= i < n && is_inner(points[i], dir, excluded) implies after.contains(i) by {
            if i == n - 1 {
                assert(after[after.len() - 1] == i);
            } else {
                let k = choose|k: int| 0 <= k < before.len() && before[k] == i;
                assert(before.contains(i));
                assert(after[k] == i);
            }
        }
    }
}

/// Whether a mount is wanted for a directory.
pub open spec fn is_wanted(
    points: Seq<Seq<u8>>,
    dir: Seq<u8>,
    excluded: Seq<Seq<u8>>,
    i: int,
) -> bool {
    &&& 0 <= i < points.len()
    &&& is_closest(points, dir, i) || is_inner(points[i], dir, excluded)
}

/// The mounts that are wanted for a directory are the closest one and the inner
/// ones.
pub proof fn wanted_mounts(
    points: Seq<Seq<u8>>,
    dir: Seq<u8>,
    excluded: Seq<Seq<u8>>,
    i: int,
)
    ensures
        wanted(points, dir, excluded).contains(i) <==> is_wanted(points, dir, excluded, i),
{
    let list = wanted(points, dir, excluded);
    let inner = inner_mounts(points, dir, excluded, points.len());
    let head: Seq<int> = match closest(points, dir) {
        Some(b) => seq![b],
        None => seq![],
    };
    lemma_inner_mounts(points, dir, excluded, points.len());
    if is_closest(points, dir, i) {
        lemma_closest_unique(points, dir, i, closest(points, dir)->0);
        assert(list[0] == i);
    }
    if 0 <= i < points.len() && is_inner(points[i], dir, excluded) {
        assert(inner.contains(i));
        let k = choose|k: int| 0 <= k < inner.len() && inner[k] == i;
        assert(list[head.len() + k] == i);
    }
    if list.contains(i) {
        let k = choose|k: int| 0 <= k < list.len() && list[k] == i;
        if k >= head.len() {
            assert(inner[k - head.len()] == i);
        }
    }
}

/// What adding mounts to the targets keeps and brings.
proof fn lemma_with_targets(points: Seq<Seq<u8>>, targets: Seq<int>, more: Seq<int>)
    requires
        forall|j: int, k: int|
            0 <= j < k < targets.len() ==> components(points[#[trigger] targets[j]]) != components(
                points[#[trigger] targets[k]],
            ),
    ensures
        ({
            let res = with_targets(points, targets, more);
            &&& forall|j: int, k: int|
                0 <= j < k < res.len() ==> components(points[#[trigger] res[j]]) != components(
                    points[#[trigger] res[k]],
                )
            &&& forall|k: int|
                0 <= k < res.len() ==> targets.contains(#[trigger] res[k]) || more.contains(res[k])
            &&& forall|i: int| is_target(points, targets, i) ==> #[trigger] is_target(points, res, i)
            &&& forall|i: int| more.contains(i) ==> #[trigger] is_target(points, res, i)
        }),
    decreases more.len(),
{
    let res = with_targets(points, targets, more);
    if more.len() == 0 {
        assert forall|k: int| 0 <= k < res.len() implies targets.contains(#[trigger] res[k])
            || more.contains(res[k]) by {
            assert(targets[k] == res[k]);
        }
    } else {
        let short = more.drop_last();
        let last = more.last();
        let before = with_targets(points, targets, short);
        lemma_with_targets(points, targets, short);
        assert forall|k: int| 0 <= k < res.len() implies targets.contains(#[trigger] res[k])
            || more.contains(res[k]) by {
            if k < before.len() {
                assert(before[k] == res[k]);
                if short.contains(res[k]) {
                    let m = choose|m: int| 0 <= m < short.len() && short[m] == res[k];
                    assert(more[m] == res[k]);
                }
            } else {
                assert(more[more.len() - 1] == res[k]);
            }
        }
        assert forall|i: int| is_target(points, before, i) implies #[trigger] is_target(
            points,
            res,
            i,
        ) by {
            let k = choose|k: int|
                0 <= k < before.len() && components(points[#[trigger] before[k]]) == components(
                    points[i],
                );
            assert(res[k] == before[k]);
        }
        assert(is_target(points, res, last)) by {
            if !is_target(points, before, last) {
                assert(res[before.len() as int] == last);
            }
        }
        assert forall|i: int| more.contains(i) implies #[trigger] is_target(points, res, i) by {
            let m = choose|m: int| 0 <= m < more.len() && more[m] == i;
            if m < short.len() {
                assert(short[m] == i);
                assert(short.contains(i));
                assert(is_target(points, before, i));
            }
        }
        assert forall|j: int, k: int| 0 <= j < k < res.len() implies components(
            points[#[trigger] res[j]],
        ) != components(points[#[trigger] res[k]]) by {
            assert(before[j] == res[j]);
            if k < before.len() {
                assert(before[k] == res[k]);
            } else {
                assert(!is_target(points, before, last));
            }
        }
    }
}

/// The targets are exactly the mounts that are wanted for a directory, each
/// mount point once: no two of them have the same components, each of them is
/// wanted, and for every wanted mount one with the same components is there.
pub proof fn targets_are_the_wanted_mounts(
    points: Seq<Seq<u8>>,
    dirs: Seq<Seq<u8>>,
    excluded: Seq<Seq<u8>>,
)
    ensures
        ({
            let targets = targets_for(points, dirs, excluded);
            &&& forall|j: int, k: int|
                0 <= j < k < targets.len() ==> components(points[#[trigger] targets[j]])
                    != components(points[#[trigger] targets[k]])
            &&& forall|k: int|
                0 <= k < targets.len() ==> exists|d: int|
                    0 <= d < dirs.len() && is_wanted(
                        points,
                        #[trigger] dirs[d],
                        excluded,
                        #[trigger] targets[k],
                    )
            &&& forall|d: int, i: int|
                0 <= d < dirs.len() && #[trigger] is_wanted(points, dirs[d], excluded, i)
                    ==> is_target(points, targets, i)
        }),
    decreases dirs.len(),
{
    let targets = targets_for(points, dirs, excluded);
    if dirs.len() > 0 {
        let short = dirs.drop_last();
        let last = dirs.last();
        let before = targets_for(points, short, excluded);
        let more = wanted(points, last, excluded);
        targets_are_the_wanted_mounts(points, short, excluded);
        lemma_with_targets(points, before, more);
        assert forall|k: int| 0 <= k < targets.len() implies exists|d: int|
            0 <= d < dirs.len() && is_wanted(
                points,
                #[trigger] dirs[d],
                excluded,
                #[trigger] targets[k],
            ) by {
            let t = targets[k];
            if more.contains(t) {
                wanted_mounts(points, last, excluded, t);
                assert(is_wanted(points, dirs[dirs.len() - 1], excluded, t));
            } else {
                assert(before.contains(t));
                let m = choose|m: int| 0 <= m < before.len() && before[m] == t;
                let d = choose|d: int|
                    0 <= d < short.len() && is_wanted(
                        points,
                        #[trigger] short[d],
                        excluded,
                        before[m],
                    );
                assert(dirs[d] == short[d]);
            }
        }
        assert forall|d: int, i: int|
            0 <= d < dirs.len() && #[trigger] is_wanted(
                points,
                dirs[d],
                excluded,
                i,
            ) implies is_target(points, targets, i) by {
            if d < short.len() {
                assert(is_wanted(points, short[d], excluded, i));
                assert(is_target(points, before, i));
            } else {
                wanted_mounts(points, last, excluded, i);
            }
        }
    }
}

/// Two prefixes of a list, the shorter of which is a prefix of the longer.
proof fn lemma_prefixes(a: Seq<Seq<u8>>, b: Seq<Seq<u8>>, whole: Seq<Seq<u8>>)
    requires
        a.is_prefix_of(whole),
        b.is_prefix_of(whole),
        a.len() <= b.len(),
    ensures
        a.is_prefix_of(b),
        a.len() == b.len() ==> a == b,
{
    assert forall|i: int| 0 <= i < a.len() implies a[i] == b[i] by {
        assert(whole.subrange(0, a.len() as int)[i] == whole.subrange(0, b.len() as int)[i]);
    }
    assert(b.subrange(0, a.len() as int) =~= a);
    assert(a.len() == b.len() ==> a =~= b);
}

proof fn lemma_prefix_of_prefix(a: Seq<Seq<u8>>, b: Seq<Seq<u8>>, c: Seq<Seq<u8>>)
    requires
        a.is_prefix_of(b),
        b.is_prefix_of(c),
    ensures
        a.is_prefix_of(c),
{
    assert forall|i: int| 0 <= i < a.len() implies a[i] == c[i] by {
        assert(b.subrange(0, a.len() as int)[i] == b[i]);
        assert(c.subrange(0, b.len() as int)[i] == c[i]);
    }
    assert(c.subrange(0, a.len() as int) =~= a);
}

/// A file below a configured directory lies on a mount that is watched, unless
/// that mount lies below the directory and at or below an excluded one. Here
/// `i` is the deepest mount that holds the file.
pub proof fn files_of_watched_dirs_are_covered(
    points: Seq<Seq<u8>>,
    dirs: Seq<Seq<u8>>,
    excluded: Seq<Seq<u8>>,
    file: Seq<u8>,
    d: int,
    i: int,
)
    requires
        0 <= d < dirs.len(),
        path_starts_with(file, dirs[d]),
        is_closest(points, file, i),
    ensures
        is_target(points, targets_for(points, dirs, excluded), i) || (path_starts_with(
            points[i],
            dirs[d],
        ) && below_any(points[i], excluded)),
{
    let dir = dirs[d];
    let targets = targets_for(points, dirs, excluded);
    targets_are_the_wanted_mounts(points, dirs, excluded);
    if depth(dir) <= depth(points[i]) {
        lemma_prefixes(components(dir), components(points[i]), components(file));
        if !below_any(points[i], excluded) {
            assert(is_wanted(points, dirs[d], excluded, i));
        }
    } else {
        lemma_prefixes(components(points[i]), components(dir), components(file));
        let b = lemma_closest_exists(points, dir, i);
        assert(is_wanted(points, dirs[d], excluded, b));
        assert(is_target(points, targets, b));
        // the mount that holds the directory also holds the file
        lemma_prefix_of_prefix(components(points[b]), components(dir), components(file));
        assert(path_starts_with(file, points[b]));
        lemma_prefixes(components(points[b]), components(points[i]), components(dir));
        let k = choose|k: int|
            0 <= k < targets.len() && components(points[#[trigger] targets[k]]) == components(
                points[b],
            );
        assert(components(points[targets[k]]) == components(points[i]));
    }
}

/// A watched mount that lies at or below an excluded directory holds one of the
/// configured directories itself.
pub proof fn excluded_mounts_are_watched_only_for_dirs_on_them(
    points: Seq<Seq<u8>>,
    dirs: Seq<Seq<u8>>,
    excluded: Seq<Seq<u8>>,
    k: int,
)
    requires
        0 <= k < targets_for(points, dirs, excluded).len(),
        below_any(points[targets_for(points, dirs, excluded)[k]], excluded),
    ensures
        exists|d: int|
            0 <= d < dirs.len() && is_closest(
                points,
                #[trigger] dirs[d],
                targets_for(points, dirs, excluded)[k],
            ),
{
    let targets = targets_for(points, dirs, excluded);
    targets_are_the_wanted_mounts(points, dirs, excluded);
    let d = choose|d: int|
        0 <= d < dirs.len() && is_wanted(points, #[trigger] dirs[d], excluded, targets[k]);
    assert(is_closest(points, dirs[d], targets[k]));
}

/// A file system is left out exactly if it is of one of six kinds.
pub proof fn six_kinds_are_left_out(fs_type: Seq<char>)
    ensures
        pseudo_fs(fs_type) <==> seq![
            "proc"@,
            "sysfs"@,
            "devtmpfs"@,
            "cgroup"@,
            "cgroup2"@,
            "pstore"@,
        ].contains(fs_type),
{
    let kinds = seq!["proc"@, "sysfs"@, "devtmpfs"@, "cgroup"@, "cgroup2"@, "pstore"@];
    assert(kinds[0] == "proc"@ && kinds[1] == "sysfs"@ && kinds[2] == "devtmpfs"@ && kinds[3]
        == "cgroup"@ && kinds[4] == "cgroup2"@ && kinds[5] == "pstore"@);
}

/// Every mount is looked at for itself: the mount points of two lists together
/// are those of the first and then those of the second, and a single mount of
/// none of the six kinds is its mount point.
pub proof fn mounts_are_looked_at_one_by_one(a: Seq<Mount>, b: Seq<Mount>, mount: Mount)
    ensures
        file_mounts(a + b) == file_mounts(a) + file_mounts(b),
        file_mounts(seq![mount]) == if seq![
            "proc"@,
            "sysfs"@,
            "devtmpfs"@,
            "cgroup"@,
            "cgroup2"@,
            "pstore"@,
        ].contains(mount.fs_type@) {
            Seq::<Seq<u8>>::empty()
        } else {
            seq![mount.mount_point@]
        },
    decreases b.len(),
{
    six_kinds_are_left_out(mount.fs_type@);
    reveal_with_fuel(file_mounts, 2);
    assert(seq![mount].drop_last() =~= Seq::<Mount>::empty());
    assert(file_mounts(seq![mount].drop_last()) =~= Seq::<Seq<u8>>::empty());
    if b.len() == 0 {
        assert(a + b =~= a);
        assert(file_mounts(a) + file_mounts(b) =~= file_mounts(a));
    } else {
        mounts_are_looked_at_one_by_one(a, b.drop_last(), mount);
        assert((a + b).drop_last() =~= a + b.drop_last());
        assert((a + b).last() == b.last());
        assert(file_mounts(a + b) =~= file_mounts(a) + file_mounts(b));
    }
}

/// The mount that holds a directory has the components of the directory as far
/// as it has any, and no other such mount has more of them, nor has a later one
/// as many. There is one whenever any mount has them.
pub proof fn closest_mount_has_most_components(points: Seq<Seq<u8>>, dir: Seq<u8>, i: int)
    ensures
        closest(points, dir) matches Some(b) ==> 0 <= b < points.len() && components(
            points[b],
        ).is_prefix_of(components(dir)),
        0 <= i < points.len() && components(points[i]).is_prefix_of(components(dir)) ==> (closest(
            points,
            dir,
        ) matches Some(b) && components(points[i]).len() <= components(points[b]).len() && (i > b
            ==> components(points[i]).len() < components(points[b]).len())),
{
    if 0 <= i < points.len() && components(points[i]).is_prefix_of(components(dir)) {
        let b = lemma_closest_exists(points, dir, i);
        assert(is_closest(points, dir, closest(points, dir)->0));
        assert(path_starts_with(dir, points[i]));
    }
}

/// A mount that is watched holds one of the configured directories, and no other
/// mount holds it more closely; or it lies at or below one of them, and at or
/// below none of the excluded ones. All of this is by components.
pub proof fn watched_mounts_have_a_reason(
    points: Seq<Seq<u8>>,
    dirs: Seq<Seq<u8>>,
    excluded: Seq<Seq<u8>>,
    k: int,
)
    requires
        0 <= k < targets_for(points, dirs, excluded).len(),
    ensures
        ({
            let t = targets_for(points, dirs, excluded)[k];
            &&& 0 <= t < points.len()
            &&& exists|d: int|
                0 <= d < dirs.len() && ((components(points[t]).is_prefix_of(
                    components(#[trigger] dirs[d]),
                ) && forall|j: int|
                    0 <= j < points.len() && components(#[trigger] points[j]).is_prefix_of(
                        components(dirs[d]),
                    ) ==> components(points[j]).len() <= components(points[t]).len()) || (
                components(dirs[d]).is_prefix_of(components(points[t])) && forall|e: int|
                    0 <= e < excluded.len() ==> !components(#[trigger] excluded[e]).is_prefix_of(
                        components(points[t]),
                    )))
        }),
{
    let t = targets_for(points, dirs, excluded)[k];
    targets_are_the_wanted_mounts(points, dirs, excluded);
    let d = choose|d: int|
        0 <= d < dirs.len() && is_wanted(points, #[trigger] dirs[d], excluded, t);
    if is_closest(points, dirs[d], t) {
        assert(components(points[t]).is_prefix_of(components(dirs[d])));
        assert forall|j: int|
            0 <= j < points.len() && components(#[trigger] points[j]).is_prefix_of(
                components(dirs[d]),
            ) implies components(points[j]).len() <= components(points[t]).len() by {
            assert(path_starts_with(dirs[d], points[j]));
            assert(depth(points[j]) <= depth(points[t]));
        }
    } else {
        assert(components(dirs[d]).is_prefix_of(components(points[t])));
        assert forall|e: int| 0 <= e < excluded.len() implies !components(
            #[trigger] excluded[e],
        ).is_prefix_of(components(points[t])) by {
            if components(excluded[e]).is_prefix_of(components(points[t])) {
                assert(path_starts_with(points[t], excluded[e]));
                assert(below_any(points[t], excluded));
            }
        }
    }
}

/// The mount that holds a configured directory most closely is watched, whatever
/// is excluded. By components, and up to how the mount point is written.
pub proof fn mounts_that_hold_dirs_are_watched(
    points: Seq<Seq<u8>>,
    dirs: Seq<Seq<u8>>,
    excluded: Seq<Seq<u8>>,
    d: int,
    i: int,
)
    requires
        0 <= d < dirs.len(),
        0 <= i < points.len(),
        components(points[i]).is_prefix_of(components(dirs[d])),
        forall|j: int|
            0 <= j < points.len() && components(#[trigger] points[j]).is_prefix_of(
                components(dirs[d]),
            ) ==> components(points[j]).len() <= components(points[i]).len(),
    ensures
        exists|k: int|
            0 <= k < targets_for(points, dirs, excluded).len() && components(
                points[#[trigger] targets_for(points, dirs, excluded)[k]],
            ) == components(points[i]),
{
    let dir = dirs[d];
    assert(path_starts_with(dir, points[i]));
    let b = lemma_closest_exists(points, dir, i);
    targets_are_the_wanted_mounts(points, dirs, excluded);
    assert(is_wanted(points, dirs[d], excluded, b));
    assert(is_target(points, targets_for(points, dirs, excluded), b));
    assert(components(points[b]).is_prefix_of(components(dir)));
    assert(depth(points[i]) <= depth(points[b]));
    lemma_prefixes(components(points[i]), components(points[b]), components(dir));
}

/// A mount that lies at or below a configured directory is watched, unless it
/// lies at or below an excluded one: only then do the components of the excluded
/// directory begin those of the mount point.
pub proof fn mounts_below_dirs_are_watched(
    points: Seq<Seq<u8>>,
    dirs: Seq<Seq<u8>>,
    excluded: Seq<Seq<u8>>,
    d: int,
    i: int,
)
    requires
        0 <= d < dirs.len(),
        0 <= i < points.len(),
        components(dirs[d]).is_prefix_of(components(points[i])),
        forall|e: int|
            0 <= e < excluded.len() ==> !components(#[trigger] excluded[e]).is_prefix_of(
                components(points[i]),
            ),
    ensures
        exists|k: int|
            0 <= k < targets_for(points, dirs, excluded).len() && components(
                points[#[trigger] targets_for(points, dirs, excluded)[k]],
            ) == components(points[i]),
{
    assert(path_starts_with(points[i], dirs[d]));
    assert(!below_any(points[i], excluded)) by {
        if below_any(points[i], excluded) {
            let e = choose|e: int|
                0 <= e < excluded.len() && path_starts_with(points[i], #[trigger] excluded[e]);
            assert(components(excluded[e]).is_prefix_of(components(points[i])));
        }
    }
    targets_are_the_wanted_mounts(points, dirs, excluded);
    assert(is_wanted(points, dirs[d], excluded, i));
    assert(is_target(points, targets_for(points, dirs, excluded), i));
}

/// Where paths are written plainly, a mount at or below a configured directory
/// is watched if no excluded directory has all its names at the beginning of
/// those of the mount point; so it is if it lies above all excluded ones. Here
/// `point`, `dir` and `barred` are the names in these paths.
pub proof fn mounts_above_exclusions_are_watched(
    points: Seq<Seq<u8>>,
    dirs: Seq<Seq<u8>>,
    excluded: Seq<Seq<u8>>,
    d: int,
    i: int,
    point: Seq<Seq<u8>>,
    dir: Seq<Seq<u8>>,
    barred: Seq<Seq<Seq<u8>>>,
)
    requires
        0 <= d < dirs.len(),
        0 <= i < points.len(),
        point.len() > 0,
        points[i] == plain_path(point),
        dirs[d] == plain_path(dir).push(SLASH),
        barred.len() == excluded.len(),
        forall|e: int|
            0 <= e < barred.len() ==> #[trigger] excluded[e] == plain_path(barred[e]).push(SLASH),
        forall|n: int| 0 <= n < point.len() ==> is_name(#[trigger] point[n]),
        forall|n: int| 0 <= n < dir.len() ==> is_name(#[trigger] dir[n]),
        forall|e: int, n: int|
            0 <= e < barred.len() && 0 <= n < barred[e].len() ==> is_name(#[trigger] barred[e][n]),
        dir.is_prefix_of(point),
        forall|e: int| 0 <= e < barred.len() ==> !(#[trigger] barred[e]).is_prefix_of(point),
    ensures
        exists|k: int|
            0 <= k < targets_for(points, dirs, excluded).len() && components(
                points[#[trigger] targets_for(points, dirs, excluded)[k]],
            ) == seq![seq![SLASH]] + point,
{
    let root = seq![seq![SLASH]];
    plain_path_components(point);
    plain_path_components(dir);
    assert((root + point).subrange(0, (root + dir).len() as int) =~= root + dir) by {
        assert forall|n: int| 0 <= n < dir.len() implies dir[n] == point[n] by {
            assert(point.subrange(0, dir.len() as int)[n] == point[n]);
        }
    }
    assert forall|e: int| 0 <= e < excluded.len() implies !components(
        #[trigger] excluded[e],
    ).is_prefix_of(components(points[i])) by {
        let names = barred[e];
        assert forall|n: int| 0 <= n < names.len() implies is_name(#[trigger] names[n]) by {
            assert(is_name(barred[e][n]));
        }
        plain_path_components(names);
        if (root + names).is_prefix_of(root + point) {
            let head = (root + point).subrange(0, (root + names).len() as int);
            assert forall|n: int| 0 <= n < names.len() implies names[n] == point[n] by {
                assert(head[n + 1] == (root + names)[n + 1]);
            }
            assert(point.subrange(0, names.len() as int) =~= names);
        }
    }
    mounts_below_dirs_are_watched(points, dirs, excluded, d, i);
}

/// A file whose path begins with the components of a configured directory lies
/// on a watched mount, unless the mount that it lies on is below that directory
/// and has all components of an excluded one at its beginning.
pub proof fn files_are_covered_by_components(
    points: Seq<Seq<u8>>,
    dirs: Seq<Seq<u8>>,
    excluded: Seq<Seq<u8>>,
    file: Seq<u8>,
    d: int,
    i: int,
)
    requires
        0 <= d < dirs.len(),
        0 <= i < points.len(),
        components(dirs[d]).is_prefix_of(components(file)),
        components(points[i]).is_prefix_of(components(file)),
        forall|j: int|
            0 <= j < points.len() && components(#[trigger] points[j]).is_prefix_of(components(file))
                ==> components(points[j]).len() <= components(points[i]).len(),
    ensures
        (exists|k: int|
            0 <= k < targets_for(points, dirs, excluded).len() && components(
                points[#[trigger] targets_for(points, dirs, excluded)[k]],
            ) == components(points[i])) || (components(dirs[d]).is_prefix_of(components(points[i]))
            && exists|e: int|
            0 <= e < excluded.len() && components(#[trigger] excluded[e]).is_prefix_of(
                components(points[i]),
            )),
{
    if components(dirs[d]).len() <= components(points[i]).len() {
        lemma_prefixes(components(dirs[d]), components(points[i]), components(file));
        if forall|e: int|
            0 <= e < excluded.len() ==> !components(#[trigger] excluded[e]).is_prefix_of(
                components(points[i]),
            ) {
            mounts_below_dirs_are_watched(points, dirs, excluded, d, i);
        }
    } else {
        lemma_prefixes(components(points[i]), components(dirs[d]), components(file));
        assert forall|j: int|
            0 <= j < points.len() && components(#[trigger] points[j]).is_prefix_of(
                components(dirs[d]),
            ) implies components(points[j]).len() <= components(points[i]).len() by {
            lemma_prefix_of_prefix(
                components(points[j]),
                components(dirs[d]),
                components(file),
            );
        }
        mounts_that_hold_dirs_are_watched(points, dirs, excluded, d, i);
    }
}

/// Lists of directories and of places stand for their members, in order.
pub proof fn lists_stand_for_their_members(dirs: Seq<AbsoluteDirPath>, list: Seq<usize>)
    ensures
        dir_views(dirs).len() == dirs.len(),
        forall|k: int| 0 <= k < dirs.len() ==> #[trigger] dir_views(dirs)[k] == dirs[k]@,
        indices(list).len() == list.len(),
        forall|k: int| 0 <= k < list.len() ==> #[trigger] indices(list)[k] == list[k] as int,
{
}

} // verus!
