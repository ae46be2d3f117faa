//! Unix paths as byte strings, taken apart into their components.

use vstd::prelude::*;

verus! {

/// The byte that separates the components of a path.
pub const SLASH: u8 = 47;

/// The byte that, alone, names the current directory.
pub const DOT: u8 = 46;

/// How many bytes stand before the first separator.
pub open spec fn segment_len(s: Seq<u8>) -> nat
    decreases s.len(),
{
    if s.len() == 0 || s[0] == SLASH {
        0
    } else {
        1 + segment_len(s.drop_first())
    }
}

/// The components that the text between two separators makes: none where it is
/// empty or a single dot.
pub open spec fn segment_parts(s: Seq<u8>) -> Seq<Seq<u8>> {
    if s.len() == 0 || s == seq![DOT] {
        seq![]
    } else {
        seq![s]
    }
}

/// The components of what follows the beginning of a path.
pub open spec fn body_parts(s: Seq<u8>) -> Seq<Seq<u8>>
    decreases s.len(),
    via body_parts_decreases
{
    let n = segment_len(s);
    if n >= s.len() {
        segment_parts(s)
    } else {
        segment_parts(s.take(n as int)) + body_parts(s.skip(n as int + 1))
    }
}

#[via_fn]
proof fn body_parts_decreases(s: Seq<u8>) {
    lemma_segment_len(s);
}

/// Whether a path begins at the root.
pub open spec fn absolute(s: Seq<u8>) -> bool {
    s.len() > 0 && s[0] == SLASH
}

/// Whether a path begins with the name of the current directory.
pub open spec fn leading_dot(s: Seq<u8>) -> bool {
    s.len() > 0 && s[0] == DOT && (s.len() == 1 || s[1] == SLASH)
}

/// The components of a path, each as the text that stands for it: a slash for
/// the root, a dot for the current directory at the beginning of a path, two
/// dots for a parent directory, and names. Repeated and trailing separators
/// make no component, and neither does a dot behind a separator.
pub open spec fn components(s: Seq<u8>) -> Seq<Seq<u8>> {
    if absolute(s) {
        seq![seq![SLASH]] + body_parts(s.skip(1))
    } else if leading_dot(s) {
        seq![seq![DOT]] + body_parts(s.skip(1))
    } else {
        body_parts(s)
    }
}

/// Whether a path lies at or below another one, component by component.
pub open spec fn path_starts_with(path: Seq<u8>, base: Seq<u8>) -> bool {
    components(base).is_prefix_of(components(path))
}

/// What `segment_len` says of a text and of the byte where the segment ends.
proof fn lemma_segment_len(s: Seq<u8>)
    ensures
        segment_len(s) <= s.len(),
        forall|i: int| 0 <= i < segment_len(s) ==> s[i] != SLASH,
        segment_len(s) < s.len() ==> s[segment_len(s) as int] == SLASH,
    decreases s.len(),
{
    if s.len() > 0 && s[0] != SLASH {
        let rest = s.drop_first();
        lemma_segment_len(rest);
        assert forall|i: int| 0 <= i < segment_len(s) implies s[i] != SLASH by {
            if i > 0 {
                assert(rest[i - 1] == s[i]);
            }
        }
    }
}

/// The first separator is where the segment ends.
proof fn lemma_segment_end(s: Seq<u8>, n: int)
    requires
        0 <= n <= s.len(),
        forall|i: int| 0 <= i < n ==> s[i] != SLASH,
        n == s.len() || s[n] == SLASH,
    ensures
        segment_len(s) == n,
    decreases s.len(),
{
    if n > 0 {
        let rest = s.drop_first();
        assert forall|i: int| 0 <= i < n - 1 implies rest[i] != SLASH by {
            assert(rest[i] == s[i + 1]);
        }
        lemma_segment_end(rest, n - 1);
    }
}

/// The bytes of every component in a list of components.
pub open spec fn views(parts: Seq<Vec<u8>>) -> Seq<Seq<u8>> {
    parts.map_values(|part: Vec<u8>| part@)
}

/// Copies a part of a byte string.
pub fn copy_range(s: &[u8], from: usize, to: usize) -> (res: Vec<u8>)
    requires
        from <= to <= s@.len(),
    ensures
        res@ == s@.subrange(from as int, to as int),
{
    let mut res: Vec<u8> = Vec::new();
    let mut i: usize = from;
    while i < to
        invariant
            from <= i <= to <= s@.len(),
            res@ == s@.subrange(from as int, i as int),
        decreases to - i,
    {
        res.push(s[i]);
        i += 1;
        assert(res@ =~= s@.subrange(from as int, i as int));
    }
    res
}

/// Takes a path apart into its components.
pub fn path_components(path: &[u8]) -> (res: Vec<Vec<u8>>)
    ensures
        views(res@) == components(path@),
{
    let mut res: Vec<Vec<u8>> = Vec::new();
    let mut start: usize = 0;
    if path.len() > 0 && path[0] == SLASH {
        res.push(vec![SLASH]);
        start = 1;
        assert(res@[0]@ =~= seq![SLASH]);
        assert(views(res@) =~= seq![seq![SLASH]]);
    } else if path.len() > 0 && path[0] == DOT && (path.len() == 1 || path[1] == SLASH) {
        res.push(vec![DOT]);
        start = 1;
        assert(res@[0]@ =~= seq![DOT]);
        assert(views(res@) =~= seq![seq![DOT]]);
    }
    assert(start == 0 ==> path@.skip(0) =~= path@);
    assert(views(res@) + body_parts(path@.skip(start as int)) =~= components(path@));
    loop
        invariant_except_break
            start <= path@.len(),
            views(res@) + body_parts(path@.skip(start as int)) == components(path@),
        ensures
            views(res@) == components(path@),
        decreases path@.len() - start,
    {
        let ghost rest = path@.skip(start as int);
        let mut end: usize = start;
        while end < path.len() && path[end] != SLASH
            invariant
                start <= end <= path@.len(),
                rest == path@.skip(start as int),
                forall|i: int| 0 <= i < end - start ==> rest[i] != SLASH,
            ensures
                start <= end <= path@.len(),
                forall|i: int| 0 <= i < end - start ==> rest[i] != SLASH,
                end == path@.len() || path@[end as int] == SLASH,
            decreases path@.len() - end,
        {
            end += 1;
        }
        proof {
            lemma_segment_end(rest, end - start);
            assert(rest.take(end - start) =~= path@.subrange(start as int, end as int));
            assert(end == path@.len() ==> rest.take(end - start) =~= rest);
        }
        let ghost before = res@;
        let ghost segment = path@.subrange(start as int, end as int);
        if end > start && !(end == start + 1 && path[start] == DOT) {
            assert(segment != seq![DOT]) by {
                if segment == seq![DOT] {
                    assert(segment.len() == 1);
                    assert(segment[0] == DOT);
                }
            }
            res.push(copy_range(path, start, end));
            assert(views(res@) =~= views(before) + seq![segment]);
        } else {
            assert(segment.len() == 0 || segment =~= seq![DOT]);
        }
        assert(views(res@) =~= views(before) + segment_parts(segment));
        if end == path.len() {
            break;
        }
        assert(rest.skip(end - start + 1) =~= path@.skip(end + 1));
        start = end + 1;
        assert(views(before) + (segment_parts(segment) + body_parts(path@.skip(start as int)))
            =~= views(res@) + body_parts(path@.skip(start as int)));
    }
    res
}

/// Tells whether two byte strings are the same.
pub fn same_bytes(a: &[u8], b: &[u8]) -> (res: bool)
    ensures
        res == (a@ == b@),
{
    if a.len() != b.len() {
        return false;
    }
    bytes_start_with(a, b)
}

/// Tells whether a byte string begins with another one.
pub fn bytes_start_with(s: &[u8], prefix: &[u8]) -> (res: bool)
    ensures
        res == prefix@.is_prefix_of(s@),
        s@.len() == prefix@.len() ==> res == (s@ == prefix@),
{
    if prefix.len() > s.len() {
        return false;
    }
    let mut i: usize = 0;
    while i < prefix.len()
        invariant
            i <= prefix@.len() <= s@.len(),
            forall|k: int| 0 <= k < i ==> s@[k] == prefix@[k],
        decreases prefix@.len() - i,
    {
        if s[i] != prefix[i] {
            assert(s@.subrange(0, prefix@.len() as int)[i as int] != prefix@[i as int]);
            return false;
        }
        i += 1;
    }
    assert(s@.subrange(0, prefix@.len() as int) =~= prefix@);
    assert(s@.len() == prefix@.len() ==> s@ =~= prefix@);
    true
}

/// Tells whether a list of components begins with another one.
pub fn parts_start_with(parts: &Vec<Vec<u8>>, prefix: &Vec<Vec<u8>>) -> (res: bool)
    ensures
        res == views(prefix@).is_prefix_of(views(parts@)),
{
    let ghost whole = views(parts@);
    let ghost head = views(prefix@);
    if prefix.len() > parts.len() {
        return false;
    }
    let mut i: usize = 0;
    while i < prefix.len()
        invariant
            whole == views(parts@),
            head == views(prefix@),
            i <= prefix@.len() <= parts@.len(),
            forall|k: int| 0 <= k < i ==> whole[k] == head[k],
        decreases prefix@.len() - i,
    {
        if !same_bytes(parts[i].as_slice(), prefix[i].as_slice()) {
            assert(whole.subrange(0, head.len() as int)[i as int] != head[i as int]);
            return false;
        }
        i += 1;
    }
    assert(whole.subrange(0, head.len() as int) =~= head);
    true
}

/// Behind a separator the components of a path begin anew.
proof fn lemma_body_concat(a: Seq<u8>, b: Seq<u8>)
    requires
        a.len() == 0 || a.last() == SLASH,
    ensures
        body_parts(a + b) == body_parts(a) + body_parts(b),
    decreases a.len(),
{
    if a.len() == 0 {
        assert(a + b =~= b);
        assert(body_parts(a) =~= seq![]);
        assert(body_parts(a) + body_parts(b) =~= body_parts(b));
    } else {
        lemma_segment_len(a);
        let n = segment_len(a) as int;
        assert(n < a.len());
        lemma_segment_end(a + b, n);
        assert((a + b).take(n) =~= a.take(n));
        assert((a + b).skip(n + 1) =~= a.skip(n + 1) + b);
        lemma_body_concat(a.skip(n + 1), b);
        assert(body_parts(a + b) =~= segment_parts(a.take(n)) + (body_parts(a.skip(n + 1))
            + body_parts(b)));
    }
}

/// The components of a text without a separator.
proof fn lemma_body_segment(s: Seq<u8>)
    requires
        forall|i: int| 0 <= i < s.len() ==> s[i] != SLASH,
    ensures
        body_parts(s) == segment_parts(s),
{
    lemma_segment_end(s, s.len() as int);
}

/// Where a path ends with a separator, what is written behind it only adds
/// components.
pub proof fn components_of_joined(a: Seq<u8>, b: Seq<u8>)
    requires
        a.len() > 0,
        a.last() == SLASH,
    ensures
        components(a + b) == components(a) + body_parts(b),
{
    let s = a + b;
    if absolute(a) || leading_dot(a) {
        let rest = a.skip(1);
        assert(s.skip(1) =~= rest + b);
        lemma_body_concat(rest, b);
        let head = seq![seq![a[0]]];
        assert(head + (body_parts(rest) + body_parts(b)) =~= (head + body_parts(rest))
            + body_parts(b));
    } else {
        lemma_body_concat(a, b);
    }
}

/// A file whose path begins with the bytes of a directory path that ends with a
/// separator lies below that directory, component by component.
pub proof fn byte_prefix_is_path_prefix(file: Seq<u8>, dir: Seq<u8>)
    requires
        dir.len() > 0,
        dir.last() == SLASH,
        dir.is_prefix_of(file),
    ensures
        path_starts_with(file, dir),
{
    let rest = file.skip(dir.len() as int);
    assert(file =~= dir + rest);
    components_of_joined(dir, rest);
    assert(components(file).subrange(0, components(dir).len() as int) =~= components(dir));
}

/// The name that a path ends with, where it does not end with the root or with
/// the name of the current or of the parent directory.
pub open spec fn final_name(path: Seq<u8>) -> Option<Seq<u8>> {
    let parts = components(path);
    if parts.len() == 0 || parts.last() == seq![SLASH] || parts.last() == seq![DOT]
        || parts.last() == seq![DOT, DOT] {
        None
    } else {
        Some(parts.last())
    }
}

/// Whether a path has a component that can be taken away.
pub open spec fn has_parent(path: Seq<u8>) -> bool {
    components(path).len() > 0 && components(path).last() != seq![SLASH]
}

/// Whether `n` is the length of the shortest prefix of a path that has the
/// given components.
pub open spec fn shortest_prefix(path: Seq<u8>, n: int, parts: Seq<Seq<u8>>) -> bool {
    &&& 0 <= n <= path.len()
    &&& components(path.take(n)) == parts
    &&& forall|m: int| 0 <= m < n ==> components(#[trigger] path.take(m)) != parts
}

/// How many bytes the components of a list have together.
spec fn weight(parts: Seq<Seq<u8>>) -> nat
    decreases parts.len(),
{
    if parts.len() == 0 {
        0
    } else {
        weight(parts.drop_last()) + parts.last().len()
    }
}

proof fn lemma_weight_concat(a: Seq<Seq<u8>>, b: Seq<Seq<u8>>)
    ensures
        weight(a + b) == weight(a) + weight(b),
    decreases b.len(),
{
    if b.len() == 0 {
        assert(a + b =~= a);
    } else {
        assert((a + b).drop_last() =~= a + b.drop_last());
        lemma_weight_concat(a, b.drop_last());
    }
}

proof fn lemma_weight_one(part: Seq<u8>)
    ensures
        weight(seq![part]) == part.len(),
        weight(seq![]) == 0,
{
    reveal_with_fuel(weight, 2);
    assert(seq![part].drop_last() =~= Seq::<Seq<u8>>::empty());
}

/// The components of a path, seen from its last separator: `a` is what stands
/// up to and with it, `b` what follows.
proof fn lemma_last_segment(a: Seq<u8>, b: Seq<u8>)
    requires
        a.len() == 0 || a.last() == SLASH,
        forall|i: int| 0 <= i < b.len() ==> b[i] != SLASH,
    ensures
        a.len() > 0 ==> components(a + b) == components(a) + segment_parts(b),
        a.len() == 0 && b != seq![DOT] ==> components(a + b) == segment_parts(b),
        a.len() == 0 && b == seq![DOT] ==> components(a + b) == seq![seq![DOT]],
{
    lemma_body_segment(b);
    if a.len() > 0 {
        components_of_joined(a, b);
    } else {
        assert(a + b =~= b);
        if leading_dot(b) {
            assert(b =~= seq![DOT]);
            assert(b.skip(1) =~= Seq::<u8>::empty());
            assert(components(b) =~= seq![seq![DOT]]);
        }
    }
}

/// A separator behind a path that is not empty makes no component.
proof fn lemma_trailing_slash(s: Seq<u8>)
    requires
        s.len() > 0,
    ensures
        components(s.push(SLASH)) == components(s),
{
    let t = s.push(SLASH);
    let n = last_start(s);
    lemma_last_start(s);
    let a = s.take(n);
    let b = s.skip(n);
    assert(s =~= a + b);
    lemma_last_segment(a, b);
    // the segment `b`, closed by the separator
    let closed = b.push(SLASH);
    lemma_segment_end(closed, b.len() as int);
    assert(closed.take(b.len() as int) =~= b);
    assert(closed.skip(b.len() as int + 1) =~= Seq::<u8>::empty());
    assert(body_parts(Seq::<u8>::empty()) =~= seq![]);
    assert(body_parts(closed) =~= segment_parts(b));
    assert(t =~= a + closed);
    if a.len() > 0 {
        components_of_joined(a, closed);
    } else {
        assert(a + closed =~= closed);
        assert(s =~= b);
        if b =~= seq![DOT] {
            assert(leading_dot(closed));
            assert(closed.skip(1) =~= seq![SLASH]);
            lemma_segment_end(seq![SLASH], 0);
            assert(seq![SLASH].take(0) =~= Seq::<u8>::empty());
            assert(seq![SLASH].skip(1) =~= Seq::<u8>::empty());
            assert(body_parts(seq![SLASH]) =~= seq![]);
            assert(components(closed) =~= seq![seq![DOT]]);
        } else {
            assert(!absolute(closed));
            assert(!leading_dot(closed)) by {
                if leading_dot(closed) {
                    assert(closed[1] == SLASH);
                    if b.len() > 1 {
                        assert(b[1] == closed[1]);
                    }
                    assert(b =~= seq![DOT]);
                }
            }
        }
    }
}

/// Where the last segment of a path begins: behind its last separator.
spec fn last_start(s: Seq<u8>) -> int
    decreases s.len(),
{
    if s.len() == 0 || s.last() == SLASH {
        s.len() as int
    } else {
        last_start(s.drop_last())
    }
}

proof fn lemma_last_start(s: Seq<u8>)
    ensures
        0 <= last_start(s) <= s.len(),
        last_start(s) > 0 ==> s[last_start(s) - 1] == SLASH,
        forall|i: int| last_start(s) <= i < s.len() ==> s[i] != SLASH,
    decreases s.len(),
{
    if s.len() > 0 && s.last() != SLASH {
        let t = s.drop_last();
        lemma_last_start(t);
        assert forall|i: int| last_start(s) <= i < s.len() implies s[i] != SLASH by {
            if i < t.len() {
                assert(t[i] == s[i]);
            }
        }
    }
}

/// One more byte never makes the components of a path lighter. It makes them
/// heavier where it begins a path or is the end of a name.
proof fn lemma_weight_grows(s: Seq<u8>, c: u8)
    ensures
        weight(components(s)) <= weight(components(s.push(c))),
        s.len() == 0 ==> weight(components(s)) < weight(components(s.push(c))),
        c != SLASH && !(c == DOT && s.len() > 0 && s.last() == SLASH) ==> weight(components(s))
            < weight(components(s.push(c))),
{
    let t = s.push(c);
    let n = last_start(s);
    lemma_last_start(s);
    let a = s.take(n);
    let b = s.skip(n);
    assert(s =~= a + b);
    lemma_last_segment(a, b);
    if c == SLASH {
        if s.len() > 0 {
            lemma_trailing_slash(s);
        } else {
            assert(t.skip(1) =~= Seq::<u8>::empty());
            assert(components(t) =~= seq![seq![SLASH]]);
            assert(components(s) =~= seq![]);
            lemma_weight_one(seq![SLASH]);
        }
    } else {
        let b2 = b.push(c);
        assert(t =~= a + b2);
        lemma_last_segment(a, b2);
        lemma_weight_concat(components(a), segment_parts(b));
        lemma_weight_concat(components(a), segment_parts(b2));
        lemma_weight_one(b);
        lemma_weight_one(b2);
        lemma_weight_one(seq![DOT]);
        if b2 == seq![DOT] {
            assert(b2.len() == 1);
            assert(b =~= Seq::<u8>::empty());
            assert(c == b2[0]);
            if a.len() > 0 {
                assert(s =~= a);
            }
        }
        if b == seq![DOT] {
            assert(b.len() == 1);
        }
    }
}

/// Shorter prefixes of a path have components that are no heavier.
proof fn lemma_weight_of_prefix(s: Seq<u8>, m: int, n: int)
    requires
        0 <= m <= n <= s.len(),
    ensures
        weight(components(s.take(m))) <= weight(components(s.take(n))),
    decreases n - m,
{
    if m < n {
        lemma_weight_of_prefix(s, m, n - 1);
        lemma_weight_grows(s.take(n - 1), s[n - 1]);
        assert(s.take(n - 1).push(s[n - 1]) =~= s.take(n));
    }
}

/// The length of the shortest prefix of a path that has the components of its
/// first `end` bytes.
fn trimmed_len(path: &[u8], end: usize) -> (res: usize)
    requires
        end <= path@.len(),
    ensures
        res <= end,
        shortest_prefix(path@, res as int, components(path@.take(end as int))),
{
    let mut n: usize = end;
    let ghost parts = components(path@.take(end as int));
    while n > 1 && (path[n - 1] == SLASH || (path[n - 1] == DOT && path[n - 2] == SLASH))
        invariant
            n <= end <= path@.len(),
            components(path@.take(n as int)) == parts,
        ensures
            n <= end,
            components(path@.take(n as int)) == parts,
            n <= 1 || !(path@[n - 1] == SLASH || (path@[n - 1] == DOT && path@[n - 2] == SLASH)),
        decreases n,
    {
        proof {
            let before = path@.take(n - 1);
            assert(path@.take(n as int) =~= before.push(path@[n - 1]));
            if path@[n - 1] == SLASH {
                lemma_trailing_slash(before);
            } else {
                assert(path@.take(n as int) =~= before + seq![DOT]);
                lemma_last_segment(before, seq![DOT]);
                assert(segment_parts(seq![DOT]) =~= seq![]);
                assert(components(before) + seq![] =~= components(before));
            }
        }
        n -= 1;
    }
    proof {
        assert forall|m: int| 0 <= m < n implies components(#[trigger] path@.take(m)) != parts by {
            lemma_weight_of_prefix(path@, m, n - 1);
            let before = path@.take(n - 1);
            lemma_weight_grows(before, path@[n - 1]);
            assert(path@.take(n as int) =~= before.push(path@[n - 1]));
        }
    }
    n
}

/// The path of the directory that holds what a path names: the shortest prefix
/// with all of its components but the last. The root and the empty path have
/// none.
pub fn path_parent(path: &[u8]) -> (res: Option<Vec<u8>>)
    ensures
        res is Some <==> has_parent(path@),
        res matches Some(parent) ==> parent@.is_prefix_of(path@) && shortest_prefix(
            path@,
            parent@.len() as int,
            components(path@).drop_last(),
        ),
{
    let end: usize = trimmed_len(path, path.len());
    let ghost whole = path@.take(end as int);
    let ghost parts = components(path@);
    assert(path@.take(path@.len() as int) =~= path@);
    let mut start: usize = end;
    while start > 0 && path[start - 1] != SLASH
        invariant
            start <= end <= path@.len(),
            forall|i: int| start <= i < end ==> path@[i] != SLASH,
        ensures
            start <= end,
            forall|i: int| start <= i < end ==> path@[i] != SLASH,
            start == 0 || path@[start - 1] == SLASH,
        decreases start,
    {
        start -= 1;
    }
    let ghost a = path@.take(start as int);
    let ghost b = path@.subrange(start as int, end as int);
    proof {
        assert(whole =~= a + b);
        lemma_last_segment(a, b);
    }
    if end == 0 {
        return None;
    }
    if start == end {
        // only the root ends with a separator once it is trimmed
        proof {
            if end > 1 {
                let before = path@.take(end - 1);
                assert(whole =~= before.push(SLASH));
                lemma_trailing_slash(before);
                assert(components(path@.take(end - 1)) == parts);
            }
            assert(whole =~= seq![SLASH]);
            assert(whole.skip(1) =~= Seq::<u8>::empty());
            assert(parts =~= seq![seq![SLASH]]);
        }
        return None;
    }
    proof {
        assert(b.len() > 0);
        if start > 0 && b == seq![DOT] {
            assert(components(a) + segment_parts(b) =~= components(a));
            assert(components(path@.take(start as int)) == parts);
        }
        assert(parts =~= components(a) + seq![b]) by {
            if start == 0 {
                assert(components(a) =~= seq![]);
            }
        }
        assert(parts.drop_last() =~= components(a));
        assert(b != seq![SLASH]) by {
            assert(b[0] != SLASH);
        }
    }
    let n: usize = trimmed_len(path, start);
    let parent = copy_range(path, 0, n);
    assert(parent@ =~= path@.take(n as int));
    assert(path@.subrange(0, n as int) =~= parent@);
    Some(parent)
}

/// The name that a path ends with.
pub fn path_file_name(path: &[u8]) -> (res: Option<Vec<u8>>)
    ensures
        res is Some <==> final_name(path@) is Some,
        res matches Some(name) ==> name@ == final_name(path@)->0,
{
    let mut parts: Vec<Vec<u8>> = path_components(path);
    match parts.pop() {
        None => None,
        Some(last) => {
            assert(components(path@).last() == last@);
            assert(last@ == seq![SLASH] <==> last@.len() == 1 && last@[0] == SLASH) by {
                assert(last@.len() == 1 && last@[0] == SLASH ==> last@ =~= seq![SLASH]);
            }
            assert(last@ == seq![DOT] <==> last@.len() == 1 && last@[0] == DOT) by {
                assert(last@.len() == 1 && last@[0] == DOT ==> last@ =~= seq![DOT]);
            }
            assert(last@ == seq![DOT, DOT] <==> last@.len() == 2 && last@[0] == DOT && last@[1]
                == DOT) by {
                assert(last@.len() == 2 && last@[0] == DOT && last@[1] == DOT ==> last@ =~= seq![
                    DOT,
                    DOT,
                ]);
            }
            if (last.len() == 1 && (last[0] == SLASH || last[0] == DOT)) || (last.len() == 2
                && last[0] == DOT && last[1] == DOT) {
                None
            } else {
                Some(last)
            }
        },
    }
}

/// Whether a byte string can be the name of a file or directory.
pub open spec fn is_name(s: Seq<u8>) -> bool {
    &&& s.len() > 0
    &&& s != seq![DOT]
    &&& forall|i: int| 0 <= i < s.len() ==> s[i] != SLASH
}

/// The plain way to write the absolute path with the given names: a separator
/// before each of them. For no name at all it is empty.
pub open spec fn plain_path(names: Seq<Seq<u8>>) -> Seq<u8>
    decreases names.len(),
{
    if names.len() == 0 {
        seq![]
    } else {
        plain_path(names.drop_last()) + seq![SLASH] + names.last()
    }
}

/// A path written plainly has the root and its names as components, and so has
/// the same path with a separator behind it.
pub proof fn plain_path_components(names: Seq<Seq<u8>>)
    requires
        forall|i: int| 0 <= i < names.len() ==> is_name(#[trigger] names[i]),
    ensures
        names.len() > 0 ==> components(plain_path(names)) == seq![seq![SLASH]] + names,
        components(plain_path(names).push(SLASH)) == seq![seq![SLASH]] + names,
    decreases names.len(),
{
    let path = plain_path(names);
    if names.len() == 0 {
        assert(path.push(SLASH).skip(1) =~= Seq::<u8>::empty());
        assert(components(path.push(SLASH)) =~= seq![seq![SLASH]] + names);
    } else {
        let last = names.last();
        let before = plain_path(names.drop_last()).push(SLASH);
        assert(is_name(names[names.len() - 1]));
        plain_path_components(names.drop_last());
        assert(path =~= before + last);
        lemma_last_segment(before, last);
        assert(components(path) =~= seq![seq![SLASH]] + names);
        lemma_trailing_slash(path);
    }
}

/// Writing more names only adds bytes behind the path.
proof fn lemma_plain_path_concat(a: Seq<Seq<u8>>, b: Seq<Seq<u8>>)
    ensures
        plain_path(a).is_prefix_of(plain_path(a + b)),
        b.len() > 0 ==> plain_path(a).push(SLASH).is_prefix_of(plain_path(a + b)),
    decreases b.len(),
{
    if b.len() == 0 {
        assert(a + b =~= a);
        assert(plain_path(a).subrange(0, plain_path(a).len() as int) =~= plain_path(a));
    } else {
        let short = a + b.drop_last();
        lemma_plain_path_concat(a, b.drop_last());
        assert((a + b).drop_last() =~= short);
        let s = plain_path(a);
        let t = plain_path(short);
        let u = plain_path(a + b);
        assert(u =~= t + seq![SLASH] + b.last());
        assert forall|i: int| 0 <= i < s.len() implies u[i] == s[i] by {
            assert(t[i] == t.subrange(0, s.len() as int)[i]);
        }
        if b.len() == 1 {
            assert(short =~= a);
            assert(u[s.len() as int] == SLASH);
        } else {
            assert(t[s.len() as int] == t.subrange(0, s.len() as int + 1)[s.len() as int]);
        }
        assert(u.subrange(0, s.len() as int) =~= s);
        assert(u.subrange(0, s.len() as int + 1) =~= s.push(SLASH));
    }
}

/// For paths that are written plainly, beginning with the bytes of a directory
/// path that ends with a separator is the same as lying strictly below that
/// directory.
pub proof fn plain_prefix_is_containment(file: Seq<Seq<u8>>, dir: Seq<Seq<u8>>)
    requires
        forall|i: int| 0 <= i < file.len() ==> is_name(#[trigger] file[i]),
        forall|i: int| 0 <= i < dir.len() ==> is_name(#[trigger] dir[i]),
    ensures
        plain_path(dir).push(SLASH).is_prefix_of(plain_path(file)) <==> dir.is_prefix_of(file)
            && dir.len() < file.len(),
{
    let f = plain_path(file);
    let d = plain_path(dir).push(SLASH);
    let root = seq![seq![SLASH]];
    if dir.is_prefix_of(file) && dir.len() < file.len() {
        let rest = file.skip(dir.len() as int);
        assert(file =~= dir + rest);
        lemma_plain_path_concat(dir, rest);
    }
    if d.is_prefix_of(f) {
        plain_path_components(file);
        plain_path_components(dir);
        byte_prefix_is_path_prefix(f, d);
        let head = (root + file).subrange(0, root.len() as int + dir.len());
        assert(head == root + dir);
        assert forall|i: int| 0 <= i < dir.len() implies dir[i] == file[i] by {
            assert((root + dir)[i + 1] == head[i + 1]);
        }
        assert(file.subrange(0, dir.len() as int) =~= dir);
        if dir.len() == file.len() {
            assert(file =~= dir);
        }
    }
}

/// Where a path is absolute, its first component is the root, and no other path
/// has that component anywhere.
pub proof fn absolute_paths_begin_at_the_root(s: Seq<u8>)
    ensures
        absolute(s) <==> s.len() > 0 && s[0] == SLASH,
        s.len() > 0 && s[0] == SLASH ==> components(s).len() > 0 && components(s)[0] == seq![SLASH],
        !(s.len() > 0 && s[0] == SLASH) ==> !components(s).contains(seq![SLASH]),
{
    if s.len() > 0 && s[0] == SLASH {
        assert(components(s)[0] == seq![SLASH]);
    } else {
        lemma_parts_are_names(s);
        lemma_parts_are_names(s.skip(1));
        if components(s).contains(seq![SLASH]) {
            let k = choose|k: int| 0 <= k < components(s).len() && components(s)[k] == seq![SLASH];
            assert(seq![SLASH][0] == SLASH);
            if leading_dot(s) {
                if k == 0 {
                    assert(seq![DOT][0] == DOT);
                } else {
                    assert(is_name(body_parts(s.skip(1))[k - 1]));
                }
            } else {
                assert(is_name(body_parts(s)[k]));
            }
        }
    }
}

/// Every component behind the beginning of a path is a name.
proof fn lemma_parts_are_names(s: Seq<u8>)
    ensures
        forall|k: int| 0 <= k < body_parts(s).len() ==> is_name(#[trigger] body_parts(s)[k]),
    decreases s.len(),
{
    lemma_segment_len(s);
    let n = segment_len(s) as int;
    if n >= s.len() {
        assert(forall|k: int| 0 <= k < body_parts(s).len() ==> body_parts(s)[k] == s);
    } else {
        let head = segment_parts(s.take(n));
        let rest = body_parts(s.skip(n + 1));
        lemma_parts_are_names(s.skip(n + 1));
        assert forall|k: int| 0 <= k < body_parts(s).len() implies is_name(
            #[trigger] body_parts(s)[k],
        ) by {
            if k < head.len() {
                assert(body_parts(s)[k] == s.take(n));
            } else {
                assert(body_parts(s)[k] == rest[k - head.len()]);
            }
        }
    }
}

/// The empty path has no component, and the root has itself.
pub proof fn components_of_the_shortest_paths()
    ensures
        components(Seq::<u8>::empty()) == Seq::<Seq<u8>>::empty(),
        components(seq![SLASH]) == seq![seq![SLASH]],
{
    assert(seq![SLASH].skip(1) =~= Seq::<u8>::empty());
    assert(components(Seq::<u8>::empty()) =~= Seq::<Seq<u8>>::empty());
    assert(components(seq![SLASH]) =~= seq![seq![SLASH]]);
}

/// A text without a separator is a single component, dots included.
pub proof fn components_of_one_name(s: Seq<u8>)
    requires
        s.len() > 0,
        forall|i: int| 0 <= i < s.len() ==> s[i] != SLASH,
    ensures
        components(s) == seq![s],
{
    let nothing = Seq::<u8>::empty();
    lemma_last_segment(nothing, s);
    assert(nothing + s =~= s);
}

/// A separator at the end of a path makes no component.
pub proof fn separators_at_the_end_do_not_matter(s: Seq<u8>)
    requires
        s.len() > 0,
    ensures
        components(s.push(SLASH)) == components(s),
{
    lemma_trailing_slash(s);
}

/// Behind a separator, a path goes on with the components of what follows,
/// except that a separator or a lone dot at its beginning makes none there.
pub proof fn components_behind_a_separator(a: Seq<u8>, b: Seq<u8>)
    requires
        a.len() > 0,
        a.last() == SLASH,
    ensures
        ({
            let bare = b.len() > 0 && (b[0] == SLASH || (b[0] == DOT && (b.len() == 1 || b[1]
                == SLASH)));
            &&& bare ==> components(b).len() > 0 && components(a + b) == components(a)
                + components(b).drop_first()
            &&& !bare ==> components(a + b) == components(a) + components(b)
        }),
{
    components_of_joined(a, b);
    if b.len() > 0 && b[0] == SLASH {
        lemma_segment_end(b, 0);
        assert(b.take(0) =~= Seq::<u8>::empty());
        assert(body_parts(b) =~= body_parts(b.skip(1)));
        assert(components(b).drop_first() =~= body_parts(b.skip(1)));
    } else if leading_dot(b) {
        let rest = b.skip(1);
        assert(components(b).drop_first() =~= body_parts(rest));
        lemma_segment_end(b, 1);
        assert(b.take(1) =~= seq![DOT]);
        if b.len() == 1 {
            assert(b =~= seq![DOT]);
            assert(rest =~= Seq::<u8>::empty());
            assert(body_parts(b) =~= body_parts(rest));
        } else {
            lemma_segment_end(rest, 0);
            assert(rest.take(0) =~= Seq::<u8>::empty());
            assert(rest.skip(1) =~= b.skip(2));
            assert(body_parts(b) =~= body_parts(rest));
        }
    }
}

/// A path lies at or below another one if its components begin with those of the
/// other, one by one.
pub proof fn lying_below_is_by_components(path: Seq<u8>, base: Seq<u8>)
    ensures
        path_starts_with(path, base) <==> components(base).len() <= components(path).len()
            && forall|i: int|
            0 <= i < components(base).len() ==> components(base)[i] == components(path)[i],
{
    let head = components(path).subrange(0, components(base).len() as int);
    if path_starts_with(path, base) {
        assert forall|i: int| 0 <= i < components(base).len() implies components(base)[i]
            == components(path)[i] by {
            assert(head[i] == components(path)[i]);
        }
    }
    if components(base).len() <= components(path).len() && (forall|i: int|
        0 <= i < components(base).len() ==> components(base)[i] == components(path)[i]) {
        assert(head =~= components(base));
    }
}

/// The name that a path ends with is its last component, unless that is the
/// root or stands for the current or the parent directory.
pub proof fn file_name_is_the_last_component(path: Seq<u8>)
    ensures
        ({
            let parts = components(path);
            let bare = parts.len() == 0 || parts.last() == seq![SLASH] || parts.last() == seq![DOT]
                || parts.last() == seq![DOT, DOT];
            &&& bare ==> final_name(path) == None::<Seq<u8>>
            &&& !bare ==> final_name(path) == Some(parts.last())
        }),
        has_parent(path) <==> components(path).len() > 0 && components(path).last() != seq![SLASH],
{
}

/// The file of a path that is written plainly bears the last of its names, and
/// lies in the directory of the others.
pub proof fn plain_path_is_split_before_its_last_name(names: Seq<Seq<u8>>, n: int)
    requires
        names.len() > 0,
        forall|i: int| 0 <= i < names.len() ==> is_name(#[trigger] names[i]),
        shortest_prefix(plain_path(names), n, components(plain_path(names)).drop_last()),
    ensures
        names.last() != seq![DOT, DOT] ==> final_name(plain_path(names)) == Some(names.last()),
        names.last() == seq![DOT, DOT] ==> final_name(plain_path(names)) == None::<Seq<u8>>,
        has_parent(plain_path(names)),
        names.len() == 1 ==> plain_path(names).take(n) == seq![SLASH],
        names.len() > 1 ==> plain_path(names).take(n) == plain_path(names.drop_last()),
{
    let path = plain_path(names);
    let others = names.drop_last();
    let root = seq![seq![SLASH]];
    plain_path_components(names);
    plain_path_components(others);
    let parts = components(path).drop_last();
    assert(is_name(names[names.len() - 1]));
    assert(components(path).last() == names.last());
    assert(names.last() != seq![SLASH]) by {
        if names.last() == seq![SLASH] {
            assert(names.last()[0] == SLASH);
        }
    }
    assert(parts =~= root + others);
    let dir = plain_path(others);
    assert(path =~= dir + seq![SLASH] + names.last());
    if names.len() == 1 {
        assert(path.take(1) =~= seq![SLASH]);
        assert(path.take(0) =~= Seq::<u8>::empty());
        components_of_the_shortest_paths();
        assert(parts =~= root);
        if n > 1 {
            assert(components(path.take(1)) == parts);
        }
    } else {
        let len = dir.len() as int;
        assert(path.take(len) =~= dir);
        if n > len {
            assert(components(path.take(len)) == parts);
        }
        if n < len {
            let last = others.last();
            assert(is_name(others[others.len() - 1]));
            let before = path.take(len - 1);
            let c = path[len - 1];
            assert(dir =~= plain_path(others.drop_last()) + seq![SLASH] + last);
            assert(c == last[last.len() - 1]);
            if c == DOT && before.len() > 0 && before.last() == SLASH {
                if last.len() > 1 {
                    assert(before.last() == last[last.len() - 2]);
                }
                assert(last =~= seq![DOT]);
            }
            lemma_weight_grows(before, c);
            assert(before.push(c) =~= dir);
            lemma_weight_of_prefix(path, n, len - 1);
        }
    }
}

/// A directory and a name that a path was split into make up the path again,
/// joined by a separator, up to how it is written.
pub proof fn directory_and_name_make_the_path(path: Seq<u8>, n: int)
    requires
        final_name(path) is Some,
        shortest_prefix(path, n, components(path).drop_last()),
    ensures
        n > 0 ==> components(path.take(n).push(SLASH) + final_name(path)->0) == components(path),
        n == 0 ==> components(final_name(path)->0) == components(path),
{
    let name = final_name(path)->0;
    let parts = components(path);
    let dir = path.take(n);
    lemma_parts_are_names(path);
    lemma_parts_are_names(path.skip(1));
    assert(is_name(name)) by {
        let k = parts.len() - 1;
        if absolute(path) || leading_dot(path) {
            assert(parts[0] == seq![path[0]]);
            assert(k > 0);
            assert(parts[k] == body_parts(path.skip(1))[k - 1]);
        } else {
            assert(parts[k] == body_parts(path)[k]);
        }
    }
    if n > 0 {
        lemma_trailing_slash(dir);
        lemma_last_segment(dir.push(SLASH), name);
        assert(parts =~= parts.drop_last() + seq![name]);
    } else {
        assert(dir =~= Seq::<u8>::empty());
        components_of_the_shortest_paths();
        components_of_one_name(name);
        assert(parts =~= parts.drop_last() + seq![name]);
        assert(parts =~= seq![name]);
    }
}

/// A list of byte strings stands for their bytes, in order.
pub proof fn views_are_the_bytes(parts: Seq<Vec<u8>>)
    ensures
        views(parts).len() == parts.len(),
        forall|i: int| 0 <= i < parts.len() ==> #[trigger] views(parts)[i] == parts[i]@,
{
}

/// The directory of a path is its shortest beginning that has all components but
/// the last. So no separator stands at its end, unless it is the root.
pub proof fn directories_end_without_a_separator(path: Seq<u8>, n: int, parts: Seq<Seq<u8>>)
    ensures
        shortest_prefix(path, n, parts) <==> 0 <= n <= path.len() && components(path.take(n)) == parts
            && forall|m: int| 0 <= m < n ==> components(#[trigger] path.take(m)) != parts,
        shortest_prefix(path, n, parts) && n > 1 ==> path[n - 1] != SLASH,
{
    if shortest_prefix(path, n, parts) && n > 1 && path[n - 1] == SLASH {
        let short = path.take(n - 1);
        lemma_trailing_slash(short);
        assert(short.push(SLASH) =~= path.take(n));
        assert(components(path.take(n - 1)) == parts);
    }
}

} // verus!
