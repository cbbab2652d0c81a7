//! Normalisation of route paths, as controllers register them.
use vstd::prelude::*;

use crate::text::{
    lemma_split_on_leading, lemma_split_on_new_piece, lemma_split_on_nonempty,
    lemma_split_on_pieces_free, lemma_split_on_push, split_on,
};

verus! {

/// What a path segment contributes to a folded route path: nothing when it is
/// empty, else a slash followed by the segment.
pub open spec fn segment_suffix(seg: Seq<char>) -> Seq<char> {
    if seg.len() == 0 {
        Seq::empty()
    } else {
        seq!['/'] + seg
    }
}

/// The segments joined in order, each non-empty one preceded by a slash.
pub open spec fn join_segments(segs: Seq<Seq<char>>) -> Seq<char>
    decreases segs.len(),
{
    if segs.len() == 0 {
        Seq::empty()
    } else {
        join_segments(segs.drop_last()) + segment_suffix(segs.last())
    }
}

/// A route path folded into canonical form: a leading slash, then, for each
/// non-empty piece of the path split at `/`, a slash and that piece.
pub open spec fn folded_route_path(path: Seq<char>) -> Seq<char> {
    seq!['/'] + join_segments(split_on(path, '/'))
}

/// Folds a route path: splits it at `/`, drops the empty pieces, and appends
/// each remaining piece with a slash in front to an initial `/`.
pub fn fold_route_paths(path: String) -> (r: String)
    ensures
        r@ == folded_route_path(path@),
{
    let p = path.as_str();
    let n = p.unicode_len();
    proof {
        reveal_strlit("/");
    }
    let mut out = String::from_str("/");
    let mut start: usize = 0;
    let mut i: usize = 0;
    proof {
        assert(p@.take(0) =~= Seq::<char>::empty());
        lemma_split_on_nonempty(p@.take(0), '/');
        assert(split_on(p@.take(0), '/').drop_last() =~= Seq::<Seq<char>>::empty());
    }
    while i < n
        invariant
            n == p@.len(),
            start <= i <= n,
            out@ == seq!['/'] + join_segments(split_on(p@.take(i as int), '/').drop_last()),
            split_on(p@.take(i as int), '/').len() >= 1,
            split_on(p@.take(i as int), '/').last() == p@.subrange(start as int, i as int),
        decreases n - i,
    {
        let c = p.get_char(i);
        proof {
            reveal_strlit("/");
        }
        let ghost before = split_on(p@.take(i as int), '/');
        proof {
            assert(p@.take(i + 1) =~= p@.take(i as int).push(c));
            lemma_split_on_push(p@.take(i as int), c, '/');
            assert(before =~= before.drop_last().push(before.last()));
        }
        if c == '/' {
            let ghost s0 = start;
            let ghost o0 = out@;
            if start < i {
                out.append("/");
                out.append(p.substring_char(start, i));
            }
            start = i + 1;
            proof {
                let after = split_on(p@.take(i + 1), '/');
                assert(after.drop_last() =~= before);
                assert(join_segments(before) == join_segments(before.drop_last()) + segment_suffix(before.last()));
                if s0 < i {
                    assert(out@ =~= o0 + seq!['/'] + p@.subrange(s0 as int, i as int));
                    assert(out@ =~= seq!['/'] + join_segments(before.drop_last()) + segment_suffix(before.last()));
                } else {
                    assert(p@.subrange(s0 as int, i as int) =~= Seq::<char>::empty());
                    assert(segment_suffix(before.last()) =~= Seq::<char>::empty());
                    assert(out@ =~= seq!['/'] + join_segments(before.drop_last()) + segment_suffix(before.last()));
                }
                assert(p@.subrange(start as int, i + 1) =~= Seq::<char>::empty());
            }
        } else {
            proof {
                let after = split_on(p@.take(i + 1), '/');
                assert(after.drop_last() =~= before.drop_last());
                assert(p@.subrange(start as int, i + 1) =~= p@.subrange(start as int, i as int).push(c));
            }
        }
        i = i + 1;
    }
    let ghost before_tail = out@;
    if start < n {
        out.append("/");
        out.append(p.substring_char(start, n));
    }
    proof {
        assert(p@.take(n as int) =~= p@);
        let segs = split_on(p@, '/');
        assert(join_segments(segs) == join_segments(segs.drop_last()) + segment_suffix(segs.last()));
        if start < n {
            assert(out@ =~= before_tail + segment_suffix(segs.last()));
        } else {
            assert(segment_suffix(segs.last()) =~= Seq::<char>::empty());
        }
        assert(out@ =~= folded_route_path(p@));
    }
    out
}

/// The full path under which a controller's route is registered: the folded
/// base path of the controller followed by the folded path of the route.
pub fn full_route_path(base_path: &str, path: String) -> (r: String)
    ensures
        r@ == folded_route_path(base_path@) + folded_route_path(path@),
{
    let base = fold_route_paths(base_path.to_owned());
    let route = fold_route_paths(path);
    base.concat(route.as_str())
}

/// The full paths of a controller's routes, in the order of its routes: the
/// folded base path followed by each folded route path.
pub fn controller_route_paths(base_path: &str, paths: Vec<String>) -> (r: Vec<String>)
    ensures
        r@.len() == paths@.len(),
        forall|i: int| 0 <= i < paths@.len() ==> (#[trigger] r@[i])@ == folded_route_path(base_path@)
            + folded_route_path(paths@[i]@),
{
    let mut out: Vec<String> = Vec::new();
    let n = paths.len();
    let mut i: usize = 0;
    while i < n
        invariant
            n == paths@.len(),
            i <= n,
            out@.len() == i,
            forall|k: int| 0 <= k < i ==> (#[trigger] out@[k])@ == folded_route_path(base_path@)
                + folded_route_path(paths@[k]@),
        decreases n - i,
    {
        let p = paths[i].clone();
        out.push(full_route_path(base_path, p));
        i = i + 1;
    }
    out
}

/// A route as a controller declares it: HTTP method, path and handler name.
pub struct Route {
    pub method: String,
    pub path: String,
    pub handler: String,
}

/// The controller that serves the health check.
pub struct HealthCheckController {}

/// The application's root module.
pub struct AppModule;

impl AppModule {
    /// The module's name, `"AppModule"`.
    pub fn name(&self) -> (r: &'static str)
        ensures
            r@ == "AppModule"@,
    {
        "AppModule"
    }
}

/// An empty first segment contributes nothing to the join.
proof fn lemma_join_leading_empty(segs: Seq<Seq<char>>)
    ensures
        join_segments(seq![Seq::<char>::empty()] + segs) == join_segments(segs),
    decreases segs.len(),
{
    let all = seq![Seq::<char>::empty()] + segs;
    if segs.len() == 0 {
        assert(all.drop_last() =~= Seq::<Seq<char>>::empty());
        assert(segment_suffix(all.last()) =~= Seq::<char>::empty());
        assert(join_segments(Seq::<Seq<char>>::empty()) =~= Seq::<char>::empty());
        assert(join_segments(all) == join_segments(all.drop_last()) + segment_suffix(all.last()));
        assert(join_segments(all) =~= Seq::<char>::empty());
    } else {
        lemma_join_leading_empty(segs.drop_last());
        assert(all.drop_last() =~= seq![Seq::<char>::empty()] + segs.drop_last());
        assert(all.last() == segs.last());
    }
}

/// Folding the join of separator-free segments gives that join back.
proof fn lemma_join_refold(segs: Seq<Seq<char>>)
    requires
        forall|k: int| 0 <= k < segs.len() ==> !(#[trigger] segs[k]).contains('/'),
    ensures
        join_segments(split_on(seq!['/'] + join_segments(segs), '/')) == join_segments(segs),
    decreases segs.len(),
{
    if segs.len() == 0 {
        assert(join_segments(segs) =~= Seq::<char>::empty());
        assert(seq!['/'] + join_segments(segs) =~= Seq::<char>::empty().push('/'));
        lemma_split_on_push(Seq::<char>::empty(), '/', '/');
        let parts = split_on(seq!['/'] + join_segments(segs), '/');
        assert(parts =~= seq![Seq::<char>::empty(), Seq::<char>::empty()]);
        let one = parts.drop_last();
        assert(one.drop_last() =~= Seq::<Seq<char>>::empty());
        assert(join_segments(Seq::<Seq<char>>::empty()) =~= Seq::<char>::empty());
        assert(segment_suffix(Seq::<char>::empty()) =~= Seq::<char>::empty());
        assert(join_segments(one) == join_segments(one.drop_last()) + segment_suffix(one.last()));
        assert(join_segments(parts) == join_segments(one) + segment_suffix(parts.last()));
        assert(join_segments(parts) =~= Seq::<char>::empty());
    } else {
        let init = segs.drop_last();
        let x = segs.last();
        assert forall|k: int| 0 <= k < init.len() implies !(#[trigger] init[k]).contains('/') by {
            assert(init[k] == segs[k]);
        }
        lemma_join_refold(init);
        let a = seq!['/'] + join_segments(init);
        assert(!x.contains('/')) by {
            assert(segs[segs.len() - 1] == x);
        }
        if x.len() == 0 {
            assert(segment_suffix(x) =~= Seq::<char>::empty());
            assert(join_segments(segs) =~= join_segments(init));
        } else {
            assert(seq!['/'] + join_segments(segs) =~= a + seq!['/'] + x);
            lemma_split_on_new_piece(a, x, '/');
            let parts = split_on(a, '/').push(x);
            assert(parts.drop_last() =~= split_on(a, '/'));
        }
    }
}

/// A single non-empty segment folds to a slash, then a slash and the segment
/// itself, whatever characters it holds.
pub proof fn law_fold_single_segment(segment: Seq<char>)
    requires
        segment.len() > 0,
        !segment.contains('/'),
    ensures
        folded_route_path(segment) == seq!['/', '/'] + segment,
{
    crate::text::lemma_split_on_free(segment, '/');
    let segs = seq![segment];
    assert(segs.drop_last() =~= Seq::<Seq<char>>::empty());
    assert(join_segments(Seq::<Seq<char>>::empty()) =~= Seq::<char>::empty());
    assert(join_segments(segs) == join_segments(segs.drop_last()) + segment_suffix(segs.last()));
    assert(folded_route_path(segment) =~= seq!['/', '/'] + segment);
}

/// A non-empty segment appended after a slash is kept as it is: the folded
/// path gains a slash and that segment.
pub proof fn law_fold_keeps_appended_segment(path: Seq<char>, segment: Seq<char>)
    requires
        segment.len() > 0,
        !segment.contains('/'),
    ensures
        folded_route_path(path + seq!['/'] + segment) == folded_route_path(path) + seq!['/'] + segment,
{
    lemma_split_on_new_piece(path, segment, '/');
    let segs = split_on(path, '/').push(segment);
    assert(segs.drop_last() =~= split_on(path, '/'));
    assert(join_segments(segs) == join_segments(segs.drop_last()) + segment_suffix(segs.last()));
    assert(folded_route_path(path + seq!['/'] + segment) =~= folded_route_path(path) + seq!['/'] + segment);
}

/// Folding is idempotent: a folded path folds to itself.
pub proof fn law_fold_idempotent(path: Seq<char>)
    ensures
        folded_route_path(folded_route_path(path)) == folded_route_path(path),
{
    lemma_split_on_pieces_free(path, '/');
    lemma_join_refold(split_on(path, '/'));
}

/// A slash in front of a path does not change its folded form.
pub proof fn law_fold_ignores_leading_slash(path: Seq<char>)
    ensures
        folded_route_path(seq!['/'] + path) == folded_route_path(path),
{
    lemma_split_on_leading(path, '/');
    lemma_join_leading_empty(split_on(path, '/'));
}

/// A slash at the end of a path does not change its folded form.
pub proof fn law_fold_ignores_trailing_slash(path: Seq<char>)
    ensures
        folded_route_path(path.push('/')) == folded_route_path(path),
{
    lemma_split_on_push(path, '/', '/');
    let parts = split_on(path, '/').push(Seq::<char>::empty());
    assert(parts.drop_last() =~= split_on(path, '/'));
    assert(segment_suffix(parts.last()) =~= Seq::<char>::empty());
    assert(join_segments(parts) =~= join_segments(split_on(path, '/')));
}

} // verus!
