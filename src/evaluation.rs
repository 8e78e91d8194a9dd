use vstd::prelude::*;

use crate::builtins::{apply, def_impl, def_spec, show, str_with_texts, Ask, Outcome, Request, Resolution};
use crate::jsonpp::{
    contains_dynamics, copy_paths, copy_value, has_dynamics, head_is, lemma_members, lemma_trees,
    members, paths, texts, tree, trees, Dynamic, EvalError, JsonPP, Tree,
};
use crate::paths::{
    absolute, copy_path, is_prefix, make_absolute, path_eq, path_view, ref_chain, ref_path,
    starts_with_path, text_eq, Chunk, PathChunk,
};

verus! {

broadcast use lemma_trees, lemma_members;

/// Index of the first member with key `k`.
pub open spec fn find_key(ms: Seq<(Seq<char>, Tree)>, k: Seq<char>) -> Option<int>
    decreases ms.len(),
{
    if ms.len() == 0 {
        None
    } else {
        match find_key(ms.drop_last(), k) {
            Some(i) => Some(i),
            None => if ms.last().0 == k {
                Some(ms.len() - 1)
            } else {
                None
            },
        }
    }
}

/// `find_key` gives the first member with the key, or there is none.
pub proof fn lemma_find_key(ms: Seq<(Seq<char>, Tree)>, k: Seq<char>)
    ensures
        find_key(ms, k) matches Some(i) ==> 0 <= i < ms.len() && ms[i].0 == k && forall|j: int|
            0 <= j < i ==> (#[trigger] ms[j]).0 != k,
        find_key(ms, k) is None ==> forall|j: int| 0 <= j < ms.len() ==> (#[trigger] ms[j]).0 != k,
    decreases ms.len(),
{
    if ms.len() > 0 {
        let p = ms.drop_last();
        lemma_find_key(p, k);
        match find_key(p, k) {
            Some(i) => {
                assert forall|j: int| 0 <= j < i implies (#[trigger] ms[j]).0 != k by {
                    assert(p[j] == ms[j]);
                }
                assert(ms[i] == p[i]);
            },
            None => {
                assert forall|j: int| 0 <= j < ms.len() - 1 implies (#[trigger] ms[j]).0 != k by {
                    assert(p[j] == ms[j]);
                }
            },
        }
    }
}

/// The sub-tree at an absolute path; `None` where a step does not fit its container or
/// the key or index is missing. A `Parent` step never fits.
pub open spec fn fetch(path: Seq<Chunk>, t: Tree) -> Option<Tree>
    decreases path.len(),
{
    if path.len() == 0 {
        Some(t)
    } else {
        let rest = path.drop_first();
        match (path[0], t) {
            (Chunk::Key(k), Tree::Object(ms)) => match find_key(ms, k) {
                Some(i) => fetch(rest, ms[i].1),
                None => None,
            },
            (Chunk::Index(i), Tree::Array(xs)) => if i < xs.len() {
                fetch(rest, xs[i as int])
            } else {
                None
            },
            (Chunk::Argument(i), Tree::Dynamic(args, _, _)) => if i < args.len() {
                fetch(rest, args[i as int])
            } else {
                None
            },
            _ => None,
        }
    }
}

/// `t` with the sub-tree at `path` replaced by `v` (unchanged where `path` does not fetch).
pub open spec fn replace(path: Seq<Chunk>, t: Tree, v: Tree) -> Tree
    decreases path.len(),
{
    if path.len() == 0 {
        v
    } else {
        let rest = path.drop_first();
        match (path[0], t) {
            (Chunk::Key(k), Tree::Object(ms)) => match find_key(ms, k) {
                Some(i) => Tree::Object(ms.update(i, (ms[i].0, replace(rest, ms[i].1, v)))),
                None => t,
            },
            (Chunk::Index(i), Tree::Array(xs)) => if i < xs.len() {
                Tree::Array(xs.update(i as int, replace(rest, xs[i as int], v)))
            } else {
                t
            },
            (Chunk::Argument(i), Tree::Dynamic(args, p, deps)) => if i < args.len() {
                Tree::Dynamic(args.update(i as int, replace(rest, args[i as int], v)), p, deps)
            } else {
                t
            },
            _ => t,
        }
    }
}

/// Position of the member with key `key`, as `find_key` gives it.
#[verifier::loop_isolation(false)]
pub fn member_index(ms: &Vec<(Vec<char>, JsonPP)>, key: &Vec<char>) -> (r: Option<usize>)
    ensures
        r matches Some(i) ==> find_key(members(ms@), key@) == Some(i as int) && i < ms@.len(),
        r is None ==> find_key(members(ms@), key@) is None,
{
    proof {
        lemma_find_key(members(ms@), key@);
    }
    let mut i: usize = 0;
    while i < ms.len()
        invariant
            i <= ms@.len(),
            forall|j: int| 0 <= j < i ==> (#[trigger] members(ms@)[j]).0 != key@,
            find_key(members(ms@), key@) matches Some(f) ==> f >= i,
        decreases ms@.len() - i,
    {
        if text_eq(&ms[i].0, key) {
            assert(members(ms@)[i as int].0 == key@);
            return Some(i);
        }
        i = i + 1;
    }
    None
}

/// Looks up an absolute path in `root`.
pub fn abs_fetch<'a>(path: &[PathChunk], root: &'a JsonPP) -> (r: Option<&'a JsonPP>)
    ensures
        r matches Some(v) ==> fetch(path_view(path@), root@) == Some(v@),
        r is None ==> fetch(path_view(path@), root@) is None,
{
    let mut cur: &'a JsonPP = root;
    let mut i: usize = 0;
    assert(path_view(path@).skip(0) =~= path_view(path@));
    while i < path.len()
        invariant
            i <= path@.len(),
            fetch(path_view(path@), root@) == fetch(path_view(path@).skip(i as int), cur@),
        decreases path@.len() - i,
    {
        let ghost rest = path_view(path@).skip(i as int);
        assert(rest.drop_first() =~= path_view(path@).skip(i + 1));
        assert(rest[0] == path@[i as int]@);
        match (&path[i], cur) {
            (PathChunk::Key(k), JsonPP::Object(ms)) => {
                match member_index(ms, k) {
                    Some(j) => {
                        cur = &ms[j].1;
                    },
                    None => {
                        return None;
                    },
                }
            },
            (PathChunk::Index(j), JsonPP::Array(xs)) => {
                assert(trees(xs@).len() == xs@.len());
                if *j < xs.len() {
                    cur = &xs[*j];
                } else {
                    return None;
                }
            },
            (PathChunk::Argument(j), JsonPP::Dynamic(d)) => {
                assert(trees(d.args@).len() == d.args@.len());
                if *j < d.args.len() {
                    cur = &d.args[*j];
                } else {
                    return None;
                }
            },
            _ => {
                return None;
            },
        }
        i = i + 1;
    }
    assert(path_view(path@).skip(i as int).len() == 0);
    Some(cur)
}

/// `t` with the sub-tree at `path[i..]` replaced by `value`.
fn place(path: &[PathChunk], i: usize, t: JsonPP, value: JsonPP) -> (r: JsonPP)
    requires
        i <= path@.len(),
    ensures
        r@ == replace(path_view(path@).skip(i as int), t@, value@),
    decreases path@.len() - i,
{
    if i == path.len() {
        return value;
    }
    let ghost rest = path_view(path@).skip(i as int);
    assert(rest.drop_first() =~= path_view(path@).skip(i + 1));
    assert(rest[0] == path@[i as int]@);
    match (&path[i], t) {
        (PathChunk::Key(k), JsonPP::Object(mut ms)) => {
            match member_index(&ms, k) {
                Some(j) => {
                    let ghost before = ms@;
                    let mut child = (Vec::new(), JsonPP::Null);
                    ms.set_and_swap(j, &mut child);
                    let (key, inner) = child;
                    let placed = place(path, i + 1, inner, value);
                    ms.set(j, (key, placed));
                    assert(members(ms@) =~= members(before).update(
                        j as int,
                        (members(before)[j as int].0, placed@),
                    ));
                    JsonPP::Object(ms)
                },
                None => JsonPP::Object(ms),
            }
        },
        (PathChunk::Index(j), JsonPP::Array(mut xs)) => {
            let ghost before = xs@;
            assert(trees(xs@).len() == xs@.len());
            if *j >= xs.len() {
                return JsonPP::Array(xs);
            }
            let mut child = JsonPP::Null;
            xs.set_and_swap(*j, &mut child);
            let placed = place(path, i + 1, child, value);
            xs.set(*j, placed);
            assert(trees(xs@) =~= trees(before).update(*j as int, placed@));
            JsonPP::Array(xs)
        },
        (PathChunk::Argument(j), JsonPP::Dynamic(mut d)) => {
            let ghost before = d.args@;
            assert(trees(d.args@).len() == d.args@.len());
            if *j >= d.args.len() {
                return JsonPP::Dynamic(d);
            }
            let mut child = JsonPP::Null;
            d.args.set_and_swap(*j, &mut child);
            let placed = place(path, i + 1, child, value);
            d.args.set(*j, placed);
            assert(trees(d.args@) =~= trees(before).update(*j as int, placed@));
            JsonPP::Dynamic(d)
        },
        (_, other) => other,
    }
}

/// Writes `value` in place of the sub-tree at `path`; nothing else in the tree changes.
pub fn insert(path: &[PathChunk], root: &mut JsonPP, value: JsonPP)
    ensures
        final(root)@ == replace(path_view(path@), old(root)@, value@),
{
    let mut taken = JsonPP::Null;
    core::mem::swap(root, &mut taken);
    assert(path_view(path@).skip(0) =~= path_view(path@));
    *root = place(path, 0, taken, value);
}

/// `p` added to the pending paths, unless it is there.
pub open spec fn add_path(pending: Seq<Seq<Chunk>>, p: Seq<Chunk>) -> Seq<Seq<Chunk>> {
    if pending.contains(p) {
        pending
    } else {
        pending.push(p)
    }
}

/// The pending paths without `p` and the paths below it.
pub open spec fn drop_under(pending: Seq<Seq<Chunk>>, p: Seq<Chunk>) -> Seq<Seq<Chunk>>
    decreases pending.len(),
{
    if pending.len() == 0 {
        pending
    } else {
        let d = drop_under(pending.drop_last(), p);
        if is_prefix(p, pending.last()) {
            d
        } else {
            d.push(pending.last())
        }
    }
}

/// The relative dependencies `[Parent, Argument(i)]` on the operands that are dynamics.
pub open spec fn arg_deps(ys: Seq<Tree>) -> Seq<Seq<Chunk>>
    decreases ys.len(),
{
    if ys.len() == 0 {
        Seq::empty()
    } else {
        let d = arg_deps(ys.drop_last());
        if ys.last() is Dynamic {
            d.push(seq![Chunk::Parent, Chunk::Argument((ys.len() - 1) as nat)])
        } else {
            d
        }
    }
}

/// The chunk that leads to the element at `i` of an array (`arg` false) or to the operand
/// at `i` of a dynamic (`arg` true).
pub open spec fn step_to(i: nat, arg: bool) -> Chunk {
    if arg {
        Chunk::Argument(i)
    } else {
        Chunk::Index(i)
    }
}

/// Preprocessing of the value `t` that stands at `path`, top-down: every dynamic gets its
/// path and joins the pending paths; an operand that is still a dynamic becomes a
/// dependency `[Parent, Argument(i)]`; a `ref` with a literal target also depends on that
/// target; a `def` becomes its definition at once and its paths leave the pending set.
/// Gives the pending paths after the walk and the annotated value.
pub open spec fn prep(pending: Seq<Seq<Chunk>>, path: Seq<Chunk>, t: Tree) -> (
    Seq<Seq<Chunk>>,
    Result<Tree, EvalError>,
)
    decreases t,
{
    match t {
        Tree::Array(xs) => match prep_seq(pending, path, xs, false) {
            (p, Ok(ys)) => (p, Ok(Tree::Array(ys))),
            (p, Err(e)) => (p, Err(e)),
        },
        Tree::Object(ms) => match prep_members(pending, path, ms) {
            (p, Ok(ys)) => (p, Ok(Tree::Object(ys))),
            (p, Err(e)) => (p, Err(e)),
        },
        Tree::Dynamic(args, _, deps) => match prep_seq(add_path(pending, path), path, args, true) {
            (p, Err(e)) => (p, Err(e)),
            (p, Ok(ys)) => {
                let deps1 = deps + arg_deps(ys);
                if head_is(ys, "ref"@) {
                    if ys.len() < 2 {
                        (p, Err(EvalError::ArityMismatch))
                    } else {
                        match ys[1] {
                            Tree::Str(s) => match ref_path(s) {
                                Some(c) => (p, Ok(Tree::Dynamic(ys, path, deps1.push(c)))),
                                None => (p, Err(EvalError::InvalidOperand)),
                            },
                            Tree::Dynamic(..) => (p, Ok(Tree::Dynamic(ys, path, deps1))),
                            _ => (p, Err(EvalError::TypeMismatch)),
                        }
                    }
                } else if head_is(ys, "def"@) {
                    let pend2 = drop_under(p, path);
                    match def_spec(ys.drop_first()) {
                        Outcome::Value(v) => (pend2, Ok(v)),
                        Outcome::Failed(e) => (pend2, Err(e)),
                        _ => (pend2, Err(EvalError::TypeMismatch)),
                    }
                } else {
                    (p, Ok(Tree::Dynamic(ys, path, deps1)))
                }
            },
        },
        _ => (pending, Ok(t)),
    }
}

/// Preprocessing of the elements (or operands, `arg` true) in order.
pub open spec fn prep_seq(pending: Seq<Seq<Chunk>>, path: Seq<Chunk>, xs: Seq<Tree>, arg: bool) -> (
    Seq<Seq<Chunk>>,
    Result<Seq<Tree>, EvalError>,
)
    decreases xs,
{
    if xs.len() == 0 {
        (pending, Ok(Seq::empty()))
    } else {
        match prep_seq(pending, path, xs.drop_last(), arg) {
            (pend1, Err(e)) => (pend1, Err(e)),
            (pend1, Ok(ys)) => match prep(
                pend1,
                path.push(step_to((xs.len() - 1) as nat, arg)),
                xs.last(),
            ) {
                (pend2, Ok(y)) => (pend2, Ok(ys.push(y))),
                (pend2, Err(e)) => (pend2, Err(e)),
            },
        }
    }
}

/// Preprocessing of the member values in order.
pub open spec fn prep_members(pending: Seq<Seq<Chunk>>, path: Seq<Chunk>, ms: Seq<(Seq<char>, Tree)>) -> (
    Seq<Seq<Chunk>>,
    Result<Seq<(Seq<char>, Tree)>, EvalError>,
)
    decreases ms,
{
    if ms.len() == 0 {
        (pending, Ok(Seq::empty()))
    } else {
        match prep_members(pending, path, ms.drop_last()) {
            (pend1, Err(e)) => (pend1, Err(e)),
            (pend1, Ok(ys)) => match prep(pend1, path.push(Chunk::Key(ms.last().0)), ms.last().1) {
                (pend2, Ok(y)) => (pend2, Ok(ys.push((ms.last().0, y)))),
                (pend2, Err(e)) => (pend2, Err(e)),
            },
        }
    }
}

/// The mathematical form of a preprocessing result.
pub open spec fn result_view(r: Result<JsonPP, EvalError>) -> Result<Tree, EvalError> {
    match r {
        Ok(v) => Ok(v@),
        Err(e) => Err(e),
    }
}

/// Adds `path` to the pending paths unless it is there.
pub fn add_pending(pending: &mut Vec<Vec<PathChunk>>, path: &[PathChunk])
    ensures
        paths(final(pending)@) == add_path(paths(old(pending)@), path_view(path@)),
{
    let ghost ps = paths(pending@);
    let mut i: usize = 0;
    while i < pending.len()
        invariant
            i <= pending@.len(),
            ps == paths(pending@),
            forall|j: int| 0 <= j < i ==> ps[j] != path_view(path@),
        decreases pending@.len() - i,
    {
        if path_eq(pending[i].as_slice(), path) {
            assert(ps[i as int] == path_view(path@));
            assert(ps.contains(path_view(path@)));
            return;
        }
        i = i + 1;
    }
    pending.push(copy_path(path));
    assert(paths(pending@) =~= ps.push(path_view(path@)));
}

/// Removes `path` and every path below it from the pending paths.
pub fn drop_pending_under(pending: &mut Vec<Vec<PathChunk>>, path: &[PathChunk])
    ensures
        paths(final(pending)@) == drop_under(paths(old(pending)@), path_view(path@)),
{
    let ghost ps = paths(pending@);
    let mut kept: Vec<Vec<PathChunk>> = Vec::new();
    let mut i: usize = 0;
    while i < pending.len()
        invariant
            i <= pending@.len(),
            ps == paths(pending@),
            paths(kept@) == drop_under(ps.take(i as int), path_view(path@)),
        decreases pending@.len() - i,
    {
        assert(ps.take(i + 1).drop_last() =~= ps.take(i as int));
        assert(ps.take(i + 1).last() == path_view(pending@[i as int]@));
        if !starts_with_path(pending[i].as_slice(), path) {
            let ghost before = kept@;
            kept.push(copy_path(pending[i].as_slice()));
            assert(paths(kept@) =~= paths(before).push(path_view(pending@[i as int]@)));
        }
        i = i + 1;
    }
    assert(ps.take(i as int) =~= ps);
    *pending = kept;
}

/// `path` followed by one more chunk.
fn extend(path: &[PathChunk], chunk: PathChunk) -> (r: Vec<PathChunk>)
    ensures
        path_view(r@) == path_view(path@).push(chunk@),
{
    let mut r = copy_path(path);
    r.push(chunk);
    assert(path_view(r@) =~= path_view(path@).push(chunk@));
    r
}

/// The mathematical form of a sequence result.
pub open spec fn seq_result_view(r: Result<Vec<JsonPP>, EvalError>) -> Result<Seq<Tree>, EvalError> {
    match r {
        Ok(v) => Ok(trees(v@)),
        Err(e) => Err(e),
    }
}

/// The mathematical form of a members result.
pub open spec fn members_result_view(r: Result<Vec<(Vec<char>, JsonPP)>, EvalError>) -> Result<
    Seq<(Seq<char>, Tree)>,
    EvalError,
> {
    match r {
        Ok(v) => Ok(members(v@)),
        Err(e) => Err(e),
    }
}

proof fn lemma_prep_seq_err(pending: Seq<Seq<Chunk>>, path: Seq<Chunk>, xs: Seq<Tree>, arg: bool, k: int)
    requires
        0 <= k <= xs.len(),
        prep_seq(pending, path, xs.take(k), arg).1 is Err,
    ensures
        prep_seq(pending, path, xs, arg) == prep_seq(pending, path, xs.take(k), arg),
    decreases xs.len(),
{
    if k < xs.len() {
        assert(xs.drop_last().take(k) =~= xs.take(k));
        lemma_prep_seq_err(pending, path, xs.drop_last(), arg, k);
    } else {
        assert(xs.take(k) =~= xs);
    }
}

proof fn lemma_prep_members_err(pending: Seq<Seq<Chunk>>, path: Seq<Chunk>, ms: Seq<(Seq<char>, Tree)>, k: int)
    requires
        0 <= k <= ms.len(),
        prep_members(pending, path, ms.take(k)).1 is Err,
    ensures
        prep_members(pending, path, ms) == prep_members(pending, path, ms.take(k)),
    decreases ms.len(),
{
    if k < ms.len() {
        assert(ms.drop_last().take(k) =~= ms.take(k));
        lemma_prep_members_err(pending, path, ms.drop_last(), k);
    } else {
        assert(ms.take(k) =~= ms);
    }
}

/// Preprocesses the elements (or operands) of a container at `path` (see `prep_seq`).
fn preprocess_seq(
    pending: &mut Vec<Vec<PathChunk>>,
    path: &[PathChunk],
    xs: &Vec<JsonPP>,
    arg: bool,
) -> (r: Result<Vec<JsonPP>, EvalError>)
    ensures
        (paths(final(pending)@), seq_result_view(r)) == prep_seq(
            paths(old(pending)@),
            path_view(path@),
            trees(xs@),
            arg,
        ),
    decreases xs, 0nat,
{
    let ghost pend0 = paths(pending@);
    let mut out: Vec<JsonPP> = Vec::new();
    let mut i: usize = 0;
    while i < xs.len()
        invariant
            i <= xs@.len(),
            pend0 == paths(old(pending)@),
            (paths(pending@), Ok::<Seq<Tree>, EvalError>(trees(out@))) == prep_seq(
                pend0,
                path_view(path@),
                trees(xs@).take(i as int),
                arg,
            ),
        decreases xs@.len() - i,
    {
        proof {
            assert(decreases_to!(xs => xs[i as int]));
            lemma_trees(xs@);
            assert(trees(xs@).take(i + 1).drop_last() =~= trees(xs@).take(i as int));
            assert(trees(xs@).take(i + 1).last() == tree(xs@[i as int]));
        }
        let chunk = if arg {
            PathChunk::Argument(i)
        } else {
            PathChunk::Index(i)
        };
        let child_path = extend(path, chunk);
        assert(path_view(child_path@) == path_view(path@).push(step_to(i as nat, arg)));
        assert(trees(xs@).take(i + 1).len() - 1 == i);
        match preprocess(pending, &child_path, &xs[i]) {
            Ok(y) => {
                let ghost before = out@;
                out.push(y);
                assert(trees(out@) =~= trees(before).push(y@));
            },
            Err(e) => {
                assert(prep_seq(pend0, path_view(path@), trees(xs@).take(i + 1), arg) == (
                    paths(pending@),
                    Err::<Seq<Tree>, EvalError>(e),
                ));
                proof {
                    lemma_prep_seq_err(pend0, path_view(path@), trees(xs@), arg, i + 1);
                }
                return Err(e);
            },
        }
        i = i + 1;
    }
    assert(trees(xs@).take(i as int) =~= trees(xs@));
    Ok(out)
}

/// Preprocesses the member values of an object at `path` (see `prep_members`).
fn preprocess_members(
    pending: &mut Vec<Vec<PathChunk>>,
    path: &[PathChunk],
    ms: &Vec<(Vec<char>, JsonPP)>,
) -> (r: Result<Vec<(Vec<char>, JsonPP)>, EvalError>)
    ensures
        (paths(final(pending)@), members_result_view(r)) == prep_members(
            paths(old(pending)@),
            path_view(path@),
            members(ms@),
        ),
    decreases ms, 0nat,
{
    let ghost pend0 = paths(pending@);
    let mut out: Vec<(Vec<char>, JsonPP)> = Vec::new();
    let mut i: usize = 0;
    while i < ms.len()
        invariant
            i <= ms@.len(),
            pend0 == paths(old(pending)@),
            (paths(pending@), Ok::<Seq<(Seq<char>, Tree)>, EvalError>(members(out@))) == prep_members(
                pend0,
                path_view(path@),
                members(ms@).take(i as int),
            ),
        decreases ms@.len() - i,
    {
        proof {
            assert(decreases_to!(ms => ms[i as int]));
            lemma_members(ms@);
            assert(members(ms@).take(i + 1).drop_last() =~= members(ms@).take(i as int));
            assert(members(ms@).take(i + 1).last() == (ms@[i as int].0@, tree(ms@[i as int].1)));
        }
        let child_path = extend(path, PathChunk::Key(crate::paths::copy_text(&ms[i].0)));
        assert(members(ms@).take(i + 1).len() - 1 == i);
        match preprocess(pending, &child_path, &ms[i].1) {
            Ok(y) => {
                let ghost before = out@;
                out.push((crate::paths::copy_text(&ms[i].0), y));
                assert(members(out@) =~= members(before).push((ms@[i as int].0@, y@)));
            },
            Err(e) => {
                assert(prep_members(pend0, path_view(path@), members(ms@).take(i + 1)) == (
                    paths(pending@),
                    Err::<Seq<(Seq<char>, Tree)>, EvalError>(e),
                ));
                proof {
                    lemma_prep_members_err(pend0, path_view(path@), members(ms@), i + 1);
                }
                return Err(e);
            },
        }
        i = i + 1;
    }
    assert(members(ms@).take(i as int) =~= members(ms@));
    Ok(out)
}

/// Preprocesses `value`, which stands at `path`, and records its dynamics in `pending`
/// (see `prep`).
pub fn preprocess(pending: &mut Vec<Vec<PathChunk>>, path: &[PathChunk], value: &JsonPP) -> (r:
    Result<JsonPP, EvalError>)
    ensures
        (paths(final(pending)@), result_view(r)) == prep(
            paths(old(pending)@),
            path_view(path@),
            value@,
        ),
    decreases value, 1nat,
{
    match value {
        JsonPP::Array(xs) => match preprocess_seq(pending, path, xs, false) {
            Ok(ys) => Ok(JsonPP::Array(ys)),
            Err(e) => Err(e),
        },
        JsonPP::Object(ms) => match preprocess_members(pending, path, ms) {
            Ok(ys) => Ok(JsonPP::Object(ys)),
            Err(e) => Err(e),
        },
        JsonPP::Dynamic(d) => {
            add_pending(pending, path);
            let ys = match preprocess_seq(pending, path, &d.args, true) {
                Ok(ys) => ys,
                Err(e) => {
                    return Err(e);
                },
            };
            let mut deps = copy_paths(&d.dependencies);
            let ghost base = paths(deps@);
            let mut i: usize = 0;
            while i < ys.len()
                invariant
                    i <= ys@.len(),
                    paths(deps@) == base + arg_deps(trees(ys@).take(i as int)),
                decreases ys@.len() - i,
            {
                proof {
                    lemma_trees(ys@);
                    assert(trees(ys@).take(i + 1).drop_last() =~= trees(ys@).take(i as int));
                    assert(trees(ys@).take(i + 1).last() == tree(ys@[i as int]));
                }
                if matches!(ys[i], JsonPP::Dynamic(_)) {
                    let dep = vec![PathChunk::Parent, PathChunk::Argument(i)];
                    let ghost before = deps@;
                    deps.push(dep);
                    assert(path_view(dep@) =~= seq![Chunk::Parent, Chunk::Argument(i as nat)]);
                    assert(paths(deps@) =~= paths(before).push(path_view(dep@)));
                }
                i = i + 1;
            }
            assert(trees(ys@).take(i as int) =~= trees(ys@));
            let node = Dynamic { args: ys, path: copy_path(path), dependencies: deps };
            if node.is_ref() {
                if node.args.len() < 2 {
                    return Err(EvalError::ArityMismatch);
                }
                let target = match &node.args[1] {
                    JsonPP::String(s) => match ref_chain(s) {
                        Some(c) => Some(c),
                        None => {
                            return Err(EvalError::InvalidOperand);
                        },
                    },
                    JsonPP::Dynamic(_) => None,
                    _ => {
                        return Err(EvalError::TypeMismatch);
                    },
                };
                let mut node = node;
                match target {
                    Some(c) => {
                        let ghost before = node.dependencies@;
                        node.dependencies.push(c);
                        assert(paths(node.dependencies@) =~= paths(before).push(path_view(c@)));
                    },
                    None => {},
                }
                Ok(JsonPP::Dynamic(node))
            } else if node.is_def() {
                drop_pending_under(pending, path);
                let ops = crate::builtins::operands_of(&node.args);
                match def_impl(&ops) {
                    Resolution::Value(v) => Ok(v),
                    Resolution::Failed(e) => Err(e),
                    Resolution::Request(_) => Err(EvalError::TypeMismatch),
                }
            } else {
                Ok(JsonPP::Dynamic(node))
            }
        },
        _ => Ok(copy_value(value)),
    }
}

/// Walking up from `q` for a target that does not exist: the first ancestor that exists
/// decides. A dynamic there may still produce the target (`Ok(true)`, still waiting);
/// anything else, or reaching the root, makes the reference dangle.
pub open spec fn nearest_ancestor(q: Seq<Chunk>, root: Tree) -> Result<bool, EvalError>
    decreases q.len(),
{
    if q.len() == 0 {
        Err(EvalError::DanglingReference)
    } else {
        match fetch(q, root) {
            Some(t) => if t is Dynamic {
                Ok(true)
            } else {
                Err(EvalError::DanglingReference)
            },
            None => nearest_ancestor(q.drop_last(), root),
        }
    }
}

/// Whether the dependency `dep` of the dynamic at `p` is live: its target still holds a
/// dynamic, or does not exist yet below a dynamic.
pub open spec fn dep_status(p: Seq<Chunk>, dep: Seq<Chunk>, root: Tree) -> Result<bool, EvalError> {
    let target = absolute(p, dep);
    match fetch(target, root) {
        Some(t) => Ok(has_dynamics(t)),
        None => nearest_ancestor(target.drop_last(), root),
    }
}

/// Whether any dependency is live, checking them in order; the first dangling one fails.
pub open spec fn deps_live(p: Seq<Chunk>, deps: Seq<Seq<Chunk>>, root: Tree) -> Result<bool, EvalError>
    decreases deps.len(),
{
    if deps.len() == 0 {
        Ok(false)
    } else {
        match deps_live(p, deps.drop_last(), root) {
            Err(e) => Err(e),
            Ok(b) => match dep_status(p, deps.last(), root) {
                Err(e) => Err(e),
                Ok(c) => Ok(b || c),
            },
        }
    }
}

/// Walks up from `q` (see `nearest_ancestor`).
fn ancestor_status(q: &[PathChunk], root: &JsonPP) -> (r: Result<bool, EvalError>)
    ensures
        r == nearest_ancestor(path_view(q@), root@),
{
    let mut n: usize = q.len();
    assert(path_view(q@).take(n as int) =~= path_view(q@));
    while n > 0
        invariant
            n <= q@.len(),
            nearest_ancestor(path_view(q@), root@) == nearest_ancestor(
                path_view(q@).take(n as int),
                root@,
            ),
        decreases n,
    {
        let prefix = copy_path(&q[0..n]);
        assert(path_view(q@.subrange(0, n as int)) =~= path_view(q@).take(n as int));
        assert(path_view(q@).take(n as int).drop_last() =~= path_view(q@).take(n - 1));
        match abs_fetch(prefix.as_slice(), root) {
            Some(t) => {
                if matches!(t, JsonPP::Dynamic(_)) {
                    return Ok(true);
                } else {
                    return Err(EvalError::DanglingReference);
                }
            },
            None => {},
        }
        n = n - 1;
    }
    Err(EvalError::DanglingReference)
}

/// Whether the dependencies of the dynamic at `p` keep it waiting (see `deps_live`).
fn live_dependencies(p: &[PathChunk], deps: &Vec<Vec<PathChunk>>, root: &JsonPP) -> (r: Result<
    bool,
    EvalError,
>)
    ensures
        r == deps_live(path_view(p@), paths(deps@), root@),
{
    let ghost ds = paths(deps@);
    let mut live = false;
    let mut i: usize = 0;
    while i < deps.len()
        invariant
            i <= deps@.len(),
            ds == paths(deps@),
            deps_live(path_view(p@), ds.take(i as int), root@) == Ok::<bool, EvalError>(live),
        decreases deps@.len() - i,
    {
        assert(ds.take(i + 1).drop_last() =~= ds.take(i as int));
        assert(ds.take(i + 1).last() == path_view(deps@[i as int]@));
        let target = make_absolute(p, deps[i].as_slice());
        let status = match abs_fetch(target.as_slice(), root) {
            Some(t) => Ok(contains_dynamics(t)),
            None => {
                let n = target.len();
                if n == 0 {
                    Err(EvalError::DanglingReference)
                } else {
                    assert(path_view(target@.subrange(0, n - 1)) =~= path_view(target@).drop_last());
                    ancestor_status(&target.as_slice()[0..n - 1], root)
                }
            },
        };
        match status {
            Ok(c) => {
                live = live || c;
            },
            Err(e) => {
                proof {
                    lemma_deps_err_extends(path_view(p@), ds, i + 1, root@);
                }
                return Err(e);
            },
        }
        i = i + 1;
    }
    assert(ds.take(i as int) =~= ds);
    Ok(live)
}

proof fn lemma_deps_err_extends(p: Seq<Chunk>, ds: Seq<Seq<Chunk>>, k: int, root: Tree)
    requires
        0 <= k <= ds.len(),
        deps_live(p, ds.take(k), root) is Err,
    ensures
        deps_live(p, ds, root) == deps_live(p, ds.take(k), root),
    decreases ds.len(),
{
    if k < ds.len() {
        assert(ds.drop_last().take(k) =~= ds.take(k));
        lemma_deps_err_extends(p, ds.drop_last(), k, root);
    } else {
        assert(ds.take(k) =~= ds);
    }
}

/// `p` taken out of the pending paths.
pub open spec fn remove_path(pending: Seq<Seq<Chunk>>, p: Seq<Chunk>) -> Seq<Seq<Chunk>>
    decreases pending.len(),
{
    if pending.len() == 0 {
        pending
    } else {
        let d = remove_path(pending.drop_last(), p);
        if pending.last() == p {
            d
        } else {
            d.push(pending.last())
        }
    }
}

/// Takes `p` out of the pending paths.
pub fn remove_pending(pending: &mut Vec<Vec<PathChunk>>, p: &[PathChunk])
    ensures
        paths(final(pending)@) == remove_path(paths(old(pending)@), path_view(p@)),
{
    let ghost ps = paths(pending@);
    let mut kept: Vec<Vec<PathChunk>> = Vec::new();
    let mut i: usize = 0;
    while i < pending.len()
        invariant
            i <= pending@.len(),
            ps == paths(pending@),
            paths(kept@) == remove_path(ps.take(i as int), path_view(p@)),
        decreases pending@.len() - i,
    {
        assert(ps.take(i + 1).drop_last() =~= ps.take(i as int));
        assert(ps.take(i + 1).last() == path_view(pending@[i as int]@));
        if !path_eq(pending[i].as_slice(), p) {
            let ghost before = kept@;
            kept.push(copy_path(pending[i].as_slice()));
            assert(paths(kept@) =~= paths(before).push(path_view(pending@[i as int]@)));
        }
        i = i + 1;
    }
    assert(ps.take(i as int) =~= ps);
    *pending = kept;
}

/// What a dynamic that asked its caller waits for.
#[derive(Debug)]
pub enum Awaited {
    /// The answer is the value itself.
    Value,
    /// The texts of the floats `bits` of the `str` operand.
    Texts(JsonPP, Vec<u64>),
    /// The bytes of an included file.
    Bytes,
}

/// The mathematical form of an `Awaited`.
pub enum AwaitedView {
    Value,
    Texts(Tree, Seq<u64>),
    Bytes,
}

impl View for Awaited {
    type V = AwaitedView;

    open spec fn view(&self) -> AwaitedView {
        match self {
            Awaited::Value => AwaitedView::Value,
            Awaited::Texts(v, b) => AwaitedView::Texts(v@, b@),
            Awaited::Bytes => AwaitedView::Bytes,
        }
    }
}

/// The caller's answer to a `Request`.
#[derive(Debug)]
pub enum Answer {
    /// The resulting value (floats, integers, booleans, an imported tree).
    Value(JsonPP),
    /// The texts asked for by `FloatTexts`, in the same order.
    Texts(Vec<Vec<char>>),
    /// The bytes of an included file.
    Bytes(Vec<u8>),
    /// The work failed (a file that cannot be read, a text that is no number).
    Failed(EvalError),
}

/// The mathematical form of an `Answer`.
pub enum AnswerView {
    Value(Tree),
    Texts(Seq<Seq<char>>),
    Bytes(Seq<u8>),
    Failed(EvalError),
}

impl View for Answer {
    type V = AnswerView;

    open spec fn view(&self) -> AnswerView {
        match self {
            Answer::Value(v) => AnswerView::Value(v@),
            Answer::Texts(ts) => AnswerView::Texts(texts(ts@)),
            Answer::Bytes(b) => AnswerView::Bytes(b@),
            Answer::Failed(e) => AnswerView::Failed(*e),
        }
    }
}

/// What one call of `Evaluator::advance` or `Evaluator::answer` reports.
#[derive(Debug)]
pub enum Step {
    /// No dynamic is left.
    Done,
    /// Progress was made or a dynamic was looked at; call `advance` again.
    Working,
    /// A dynamic needs this work done; hand the result to `answer`.
    Ask(Request),
    /// The evaluation fails.
    Failed(EvalError),
}

/// The mathematical form of a `Step`.
pub enum StepView {
    Done,
    Working,
    Ask(Ask),
    Failed(EvalError),
}

impl View for Step {
    type V = StepView;

    open spec fn view(&self) -> StepView {
        match self {
            Step::Done => StepView::Done,
            Step::Working => StepView::Working,
            Step::Ask(r) => StepView::Ask(r@),
            Step::Failed(e) => StepView::Failed(*e),
        }
    }
}

/// Characters that `char::is_whitespace` holds for, among those a byte can stand for.
pub open spec fn is_space(c: char) -> bool {
    let u = c as u32;
    (9 <= u <= 13) || u == 32 || u == 0x85 || u == 0xA0
}

/// The text without leading and trailing whitespace.
pub open spec fn trim(s: Seq<char>) -> Seq<char>
    decreases s.len(),
{
    if s.len() > 0 && is_space(s[0]) {
        trim(s.drop_first())
    } else if s.len() > 0 && is_space(s.last()) {
        trim(s.drop_last())
    } else {
        s
    }
}

/// Each byte read as the character of the same number.
pub open spec fn latin1(b: Seq<u8>) -> Seq<char> {
    b.map_values(|x: u8| (x as u32) as char)
}

/// The value that an answer gives to the dynamic that waits for it.
pub open spec fn answer_value(kind: AwaitedView, ans: AnswerView) -> Result<Tree, EvalError> {
    match (kind, ans) {
        (_, AnswerView::Failed(e)) => Err(e),
        (AwaitedView::Value, AnswerView::Value(v)) => Ok(v),
        (AwaitedView::Texts(arg, bits), AnswerView::Texts(ts)) => match show(arg, bits, ts) {
            Some(t) => Ok(Tree::Str(t)),
            None => Err(EvalError::TypeMismatch),
        },
        (AwaitedView::Bytes, AnswerView::Bytes(b)) => Ok(Tree::Str(trim(latin1(b)))),
        _ => Err(EvalError::TypeMismatch),
    }
}

/// The included text: bytes as characters, trimmed.
fn included_text(bytes: &Vec<u8>) -> (r: Vec<char>)
    ensures
        r@ == trim(latin1(bytes@)),
{
    let ghost all = latin1(bytes@);
    let mut lo: usize = 0;
    let mut hi: usize = bytes.len();
    assert(all.subrange(0, hi as int) =~= all);
    while lo < hi && is_space_exec(bytes[lo] as char)
        invariant
            lo <= hi <= bytes@.len(),
            all == latin1(bytes@),
            trim(all) == trim(all.subrange(lo as int, hi as int)),
        decreases hi - lo,
    {
        assert(all.subrange(lo as int, hi as int).drop_first() =~= all.subrange(lo + 1, hi as int));
        lo = lo + 1;
    }
    while lo < hi && is_space_exec(bytes[hi - 1] as char)
        invariant
            lo <= hi <= bytes@.len(),
            all == latin1(bytes@),
            trim(all) == trim(all.subrange(lo as int, hi as int)),
            lo < hi ==> !is_space(all[lo as int]),
        decreases hi - lo,
    {
        assert(all.subrange(lo as int, hi as int).drop_last() =~= all.subrange(lo as int, hi - 1));
        hi = hi - 1;
    }
    let mut r: Vec<char> = Vec::new();
    let mut i: usize = lo;
    while i < hi
        invariant
            lo <= i <= hi <= bytes@.len(),
            all == latin1(bytes@),
            r@ == all.subrange(lo as int, i as int),
        decreases hi - i,
    {
        r.push(bytes[i] as char);
        i = i + 1;
        assert(r@ =~= all.subrange(lo as int, i as int));
    }
    r
}

fn is_space_exec(c: char) -> (r: bool)
    ensures
        r == is_space(c),
{
    let u = c as u32;
    (9 <= u && u <= 13) || u == 32 || u == 0x85 || u == 0xA0
}

/// The resolve loop, one step at a time: the caller runs it and does the work it asks for.
#[derive(Debug)]
pub struct Evaluator {
    /// The tree being evaluated.
    pub root: JsonPP,
    /// Paths of the dynamics not yet resolved, without repeats.
    pub pending: Vec<Vec<PathChunk>>,
    /// The pending paths as they stood when the current round began.
    pub round: Vec<Vec<PathChunk>>,
    /// How many paths of the round have been looked at.
    pub next: usize,
    /// Whether the current round has resolved or dropped anything.
    pub progressed: bool,
    /// The dynamic that waits for the caller's answer, and what it waits for.
    pub waiting: Option<(Vec<PathChunk>, Awaited)>,
}

/// The mathematical form of an `Evaluator`.
pub struct EvalState {
    pub root: Tree,
    pub pending: Seq<Seq<Chunk>>,
    pub round: Seq<Seq<Chunk>>,
    pub next: nat,
    pub progressed: bool,
    pub waiting: Option<(Seq<Chunk>, AwaitedView)>,
}

impl View for Evaluator {
    type V = EvalState;

    open spec fn view(&self) -> EvalState {
        EvalState {
            root: self.root@,
            pending: paths(self.pending@),
            round: paths(self.round@),
            next: self.next as nat,
            progressed: self.progressed,
            waiting: match &self.waiting {
                Some((p, k)) => Some((path_view(p@), k@)),
                None => None,
            },
        }
    }
}

/// Writing a resolved value `v` back at `p`: it is preprocessed in place; the path leaves
/// the pending set unless the value is itself a dynamic.
pub open spec fn settle(s: EvalState, p: Seq<Chunk>, v: Tree) -> (EvalState, StepView) {
    match prep(s.pending, p, v) {
        (pend, Err(e)) => (EvalState { pending: pend, ..s }, StepView::Failed(e)),
        (pend, Ok(v2)) => (
            EvalState {
                root: replace(p, s.root, v2),
                pending: if v2 is Dynamic {
                    pend
                } else {
                    remove_path(pend, p)
                },
                progressed: true,
                ..s
            },
            StepView::Working,
        ),
    }
}

/// What a request leaves the dynamic waiting for.
pub open spec fn awaited_for(a: Ask, args: Seq<Tree>) -> AwaitedView {
    match a {
        Ask::FloatTexts(bits) => AwaitedView::Texts(args[1], bits),
        Ask::Include(_) => AwaitedView::Bytes,
        _ => AwaitedView::Value,
    }
}

/// Nothing is pending but the tree still holds dynamics: the tree is preprocessed afresh
/// from the root, and what that finds becomes the pending set.
pub open spec fn rediscover(s: EvalState) -> (EvalState, StepView) {
    match prep(Seq::empty(), Seq::empty(), s.root) {
        (_, Err(e)) => (s, StepView::Failed(e)),
        (pend, Ok(t)) => if pend.len() == 0 {
            (s, StepView::Failed(EvalError::ResidualValue))
        } else {
            (
                EvalState {
                    root: t,
                    pending: pend,
                    round: Seq::empty(),
                    next: 0,
                    progressed: false,
                    ..s
                },
                StepView::Working,
            )
        },
    }
}

/// One step of the resolve loop. At the end of a round: done when nothing is pending and
/// no dynamic is left in the tree (stray dynamics are found afresh),
/// a reference cycle when a whole round changed nothing, else a new round over the pending
/// paths. Otherwise the next path of the round: a path that no longer holds a dynamic is
/// dropped; a dynamic with a live dependency waits; one without is resolved.
pub open spec fn advance_spec(s: EvalState) -> (EvalState, StepView) {
    if s.next >= s.round.len() {
        if s.pending.len() == 0 {
            if !has_dynamics(s.root) {
                (s, StepView::Done)
            } else {
                rediscover(s)
            }
        } else if s.round.len() > 0 && !s.progressed {
            (s, StepView::Failed(EvalError::ReferenceCycle))
        } else {
            (EvalState { round: s.pending, next: 0, progressed: false, ..s }, StepView::Working)
        }
    } else {
        let p = s.round[s.next as int];
        let s1 = EvalState { next: s.next + 1, ..s };
        match fetch(p, s.root) {
            Some(Tree::Dynamic(args, _, deps)) => match deps_live(p, deps, s.root) {
                Err(e) => (s1, StepView::Failed(e)),
                Ok(true) => (s1, StepView::Working),
                Ok(false) => match apply(args, p, s.root) {
                    Outcome::Value(v) => settle(s1, p, v),
                    Outcome::Failed(e) => (s1, StepView::Failed(e)),
                    Outcome::Request(a) => (
                        EvalState { waiting: Some((p, awaited_for(a, args))), ..s1 },
                        StepView::Ask(a),
                    ),
                },
            },
            _ => (
                EvalState { pending: remove_path(s.pending, p), progressed: true, ..s1 },
                StepView::Working,
            ),
        }
    }
}

/// Taking the caller's answer for the waiting dynamic.
pub open spec fn answer_spec(s: EvalState, ans: AnswerView) -> (EvalState, StepView) {
    let (p, kind) = s.waiting.unwrap();
    let s1 = EvalState { waiting: None, ..s };
    match answer_value(kind, ans) {
        Err(e) => (s1, StepView::Failed(e)),
        Ok(v) => settle(s1, p, v),
    }
}

impl Evaluator {
    /// Starts evaluating a parsed tree: preprocesses it from the root.
    pub fn new(parsed: &JsonPP) -> (r: Result<Evaluator, EvalError>)
        ensures
            prep(Seq::empty(), Seq::empty(), parsed@).1 matches Err(e) ==> r == Err::<
                Evaluator,
                EvalError,
            >(e),
            prep(Seq::empty(), Seq::empty(), parsed@) matches (pend, Ok(t)) ==> r matches Ok(ev) && ev@
                == (EvalState {
                root: t,
                pending: pend,
                round: Seq::empty(),
                next: 0,
                progressed: false,
                waiting: None,
            }),
    {
        let mut pending: Vec<Vec<PathChunk>> = Vec::new();
        let root_path: Vec<PathChunk> = Vec::new();
        assert(paths(pending@) =~= Seq::<Seq<Chunk>>::empty());
        assert(path_view(root_path@) =~= Seq::<Chunk>::empty());
        match preprocess(&mut pending, root_path.as_slice(), parsed) {
            Ok(root) => {
                let round: Vec<Vec<PathChunk>> = Vec::new();
                assert(paths(round@) =~= Seq::<Seq<Chunk>>::empty());
                Ok(Evaluator { root, pending, round, next: 0, progressed: false, waiting: None })
            },
            Err(e) => Err(e),
        }
    }

    /// Whether a dynamic waits for the caller's answer.
    pub fn is_waiting(&self) -> (r: bool)
        ensures
            r == self@.waiting is Some,
    {
        self.waiting.is_some()
    }

    /// Writes a resolved value back at `p` (see `settle`).
    fn settle_exec(&mut self, p: &[PathChunk], v: &JsonPP) -> (r: Step)
        ensures
            (final(self)@, r@) == settle(old(self)@, path_view(p@), v@),
    {
        match preprocess(&mut self.pending, p, v) {
            Err(e) => Step::Failed(e),
            Ok(v2) => {
                if !matches!(v2, JsonPP::Dynamic(_)) {
                    remove_pending(&mut self.pending, p);
                }
                insert(p, &mut self.root, v2);
                self.progressed = true;
                Step::Working
            },
        }
    }

    /// One step of the resolve loop (see `advance_spec`).
    pub fn advance(&mut self) -> (r: Step)
        requires
            old(self)@.waiting is None,
        ensures
            (final(self)@, r@) == advance_spec(old(self)@),
            r@ is Done ==> !has_dynamics(final(self)@.root),
    {
        if self.next >= self.round.len() {
            if self.pending.len() == 0 {
                if !contains_dynamics(&self.root) {
                    return Step::Done;
                }
                let mut pend: Vec<Vec<PathChunk>> = Vec::new();
                let root_path: Vec<PathChunk> = Vec::new();
                assert(paths(pend@) =~= Seq::<Seq<Chunk>>::empty());
                assert(path_view(root_path@) =~= Seq::<Chunk>::empty());
                match preprocess(&mut pend, root_path.as_slice(), &self.root) {
                    Err(e) => {
                        return Step::Failed(e);
                    },
                    Ok(t) => {
                        if pend.len() == 0 {
                            return Step::Failed(EvalError::ResidualValue);
                        }
                        self.root = t;
                        self.pending = pend;
                        self.round = Vec::new();
                        assert(paths(self.round@) =~= Seq::<Seq<Chunk>>::empty());
                        self.next = 0;
                        self.progressed = false;
                        return Step::Working;
                    },
                }
            }
            if self.round.len() > 0 && !self.progressed {
                return Step::Failed(EvalError::ReferenceCycle);
            }
            self.round = copy_paths(&self.pending);
            self.next = 0;
            self.progressed = false;
            return Step::Working;
        }
        let p = copy_path(self.round[self.next].as_slice());
        self.next = self.next + 1;
        let resolution = match abs_fetch(p.as_slice(), &self.root) {
            Some(JsonPP::Dynamic(d)) => {
                match live_dependencies(p.as_slice(), &d.dependencies, &self.root) {
                    Err(e) => {
                        return Step::Failed(e);
                    },
                    Ok(true) => {
                        return Step::Working;
                    },
                    Ok(false) => {},
                }
                let res = d.resolve(p.as_slice(), &self.root);
                let kind = match &res {
                    Resolution::Request(Request::FloatTexts(bits)) => {
                        if d.args.len() < 2 {
                            Awaited::Value
                        } else {
                            Awaited::Texts(copy_value(&d.args[1]), bits.clone())
                        }
                    },
                    Resolution::Request(Request::Include(_)) => Awaited::Bytes,
                    _ => Awaited::Value,
                };
                (res, kind)
            },
            _ => {
                remove_pending(&mut self.pending, p.as_slice());
                self.progressed = true;
                return Step::Working;
            },
        };
        let (res, kind) = resolution;
        match res {
            Resolution::Value(v) => self.settle_exec(p.as_slice(), &v),
            Resolution::Failed(e) => Step::Failed(e),
            Resolution::Request(req) => {
                self.waiting = Some((p, kind));
                Step::Ask(req)
            },
        }
    }

    /// Hands the caller's answer to the waiting dynamic (see `answer_spec`).
    pub fn answer(&mut self, ans: Answer) -> (r: Step)
        requires
            old(self)@.waiting is Some,
        ensures
            (final(self)@, r@) == answer_spec(old(self)@, ans@),
    {
        let (p, kind) = match self.waiting.take() {
            Some(w) => w,
            None => {
                return Step::Failed(EvalError::TypeMismatch);
            },
        };
        let value = match (&kind, &ans) {
            (_, Answer::Failed(e)) => Err(*e),
            (Awaited::Value, Answer::Value(v)) => Ok(copy_value(v)),
            (Awaited::Texts(arg, bits), Answer::Texts(ts)) => match str_with_texts(arg, bits, ts) {
                Resolution::Value(v) => Ok(v),
                _ => Err(EvalError::TypeMismatch),
            },
            (Awaited::Bytes, Answer::Bytes(b)) => Ok(JsonPP::String(included_text(b))),
            _ => Err(EvalError::TypeMismatch),
        };
        match value {
            Err(e) => Step::Failed(e),
            Ok(v) => self.settle_exec(p.as_slice(), &v),
        }
    }
}

} // verus!
