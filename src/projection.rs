use vstd::prelude::*;

use crate::jsonpp::{lemma_members, lemma_trees, members, tree, trees, EvalError, JsonPP, Tree};
use crate::paths::copy_text;

verus! {

broadcast use lemma_trees, lemma_members;

/// A strict JSON value: what an evaluation produces.
#[derive(Debug)]
pub enum Json {
    Null,
    Bool(bool),
    Int(i64),
    /// A 64-bit IEEE-754 number, held as its bit pattern.
    Float(u64),
    String(Vec<char>),
    Array(Vec<Json>),
    /// Members in order; keys are unique.
    Object(Vec<(Vec<char>, Json)>),
}

/// The mathematical form of a `Json`.
pub enum JsonView {
    Null,
    Bool(bool),
    Int(i64),
    Float(u64),
    Str(Seq<char>),
    Array(Seq<JsonView>),
    Object(Seq<(Seq<char>, JsonView)>),
}

/// The mathematical form of a JSON value.
pub open spec fn jview(j: Json) -> JsonView
    decreases j,
{
    match j {
        Json::Null => JsonView::Null,
        Json::Bool(b) => JsonView::Bool(b),
        Json::Int(i) => JsonView::Int(i),
        Json::Float(f) => JsonView::Float(f),
        Json::String(s) => JsonView::Str(s@),
        Json::Array(xs) => JsonView::Array(jviews(xs@)),
        Json::Object(ms) => JsonView::Object(jmembers(ms@)),
    }
}

/// The mathematical forms of a sequence of JSON values.
pub open spec fn jviews(s: Seq<Json>) -> Seq<JsonView>
    decreases s,
{
    if s.len() == 0 {
        Seq::empty()
    } else {
        jviews(s.drop_last()).push(jview(s.last()))
    }
}

/// The mathematical forms of the members of a JSON object.
pub open spec fn jmembers(s: Seq<(Vec<char>, Json)>) -> Seq<(Seq<char>, JsonView)>
    decreases s,
{
    if s.len() == 0 {
        Seq::empty()
    } else {
        jmembers(s.drop_last()).push((s.last().0@, jview(s.last().1)))
    }
}

impl View for Json {
    type V = JsonView;

    open spec fn view(&self) -> JsonView {
        jview(*self)
    }
}

/// Projection to strict JSON: `undefined` and definitions vanish (`None`), and vanish
/// from the arrays and objects that hold them; an identifier or dynamic that is left
/// fails with `ResidualValue`.
pub open spec fn project(t: Tree) -> Result<Option<JsonView>, EvalError>
    decreases t,
{
    match t {
        Tree::Undefined => Ok(None),
        Tree::Definition(..) => Ok(None),
        Tree::Identifier(_) => Err(EvalError::ResidualValue),
        Tree::Dynamic(..) => Err(EvalError::ResidualValue),
        Tree::Null => Ok(Some(JsonView::Null)),
        Tree::Bool(b) => Ok(Some(JsonView::Bool(b))),
        Tree::Int(i) => Ok(Some(JsonView::Int(i))),
        Tree::Float(f) => Ok(Some(JsonView::Float(f))),
        Tree::Str(s) => Ok(Some(JsonView::Str(s))),
        Tree::Array(xs) => match project_all(xs) {
            Ok(ys) => Ok(Some(JsonView::Array(ys))),
            Err(e) => Err(e),
        },
        Tree::Object(ms) => match project_members(ms) {
            Ok(ys) => Ok(Some(JsonView::Object(ys))),
            Err(e) => Err(e),
        },
    }
}

/// The projections of the elements that do not vanish, or the first failure.
pub open spec fn project_all(xs: Seq<Tree>) -> Result<Seq<JsonView>, EvalError>
    decreases xs,
{
    if xs.len() == 0 {
        Ok(Seq::empty())
    } else {
        match (project_all(xs.drop_last()), project(xs.last())) {
            (Err(e), _) => Err(e),
            (Ok(_), Err(e)) => Err(e),
            (Ok(ys), Ok(Some(y))) => Ok(ys.push(y)),
            (Ok(ys), Ok(None)) => Ok(ys),
        }
    }
}

/// The projections of the members that do not vanish, or the first failure.
pub open spec fn project_members(ms: Seq<(Seq<char>, Tree)>) -> Result<
    Seq<(Seq<char>, JsonView)>,
    EvalError,
>
    decreases ms,
{
    if ms.len() == 0 {
        Ok(Seq::empty())
    } else {
        match (project_members(ms.drop_last()), project(ms.last().1)) {
            (Err(e), _) => Err(e),
            (Ok(_), Err(e)) => Err(e),
            (Ok(ys), Ok(Some(y))) => Ok(ys.push((ms.last().0, y))),
            (Ok(ys), Ok(None)) => Ok(ys),
        }
    }
}

/// The mathematical form of a projection result.
pub open spec fn projection_view(r: Result<Option<Json>, EvalError>) -> Result<Option<JsonView>, EvalError> {
    match r {
        Ok(Some(j)) => Ok(Some(j@)),
        Ok(None) => Ok(None),
        Err(e) => Err(e),
    }
}

proof fn lemma_project_all_err(xs: Seq<Tree>, k: int)
    requires
        0 <= k <= xs.len(),
        project_all(xs.take(k)) is Err,
    ensures
        project_all(xs) == project_all(xs.take(k)),
    decreases xs.len(),
{
    if k < xs.len() {
        assert(xs.drop_last().take(k) =~= xs.take(k));
        lemma_project_all_err(xs.drop_last(), k);
    } else {
        assert(xs.take(k) =~= xs);
    }
}

proof fn lemma_project_members_err(ms: Seq<(Seq<char>, Tree)>, k: int)
    requires
        0 <= k <= ms.len(),
        project_members(ms.take(k)) is Err,
    ensures
        project_members(ms) == project_members(ms.take(k)),
    decreases ms.len(),
{
    if k < ms.len() {
        assert(ms.drop_last().take(k) =~= ms.take(k));
        lemma_project_members_err(ms.drop_last(), k);
    } else {
        assert(ms.take(k) =~= ms);
    }
}

fn project_array(xs: &Vec<JsonPP>) -> (r: Result<Vec<Json>, EvalError>)
    ensures
        match r {
            Ok(ys) => project_all(trees(xs@)) == Ok::<Seq<JsonView>, EvalError>(jviews(ys@)),
            Err(e) => project_all(trees(xs@)) == Err::<Seq<JsonView>, EvalError>(e),
        },
    decreases xs, 0nat,
{
    let mut out: Vec<Json> = Vec::new();
    let mut i: usize = 0;
    while i < xs.len()
        invariant
            i <= xs@.len(),
            project_all(trees(xs@).take(i as int)) == Ok::<Seq<JsonView>, EvalError>(jviews(out@)),
        decreases xs@.len() - i,
    {
        proof {
            assert(decreases_to!(xs => xs[i as int]));
            lemma_trees(xs@);
            assert(trees(xs@).take(i + 1).drop_last() =~= trees(xs@).take(i as int));
            assert(trees(xs@).take(i + 1).last() == tree(xs@[i as int]));
        }
        match try_into_json(&xs[i]) {
            Ok(Some(j)) => {
                let ghost before = out@;
                out.push(j);
                assert(out@.drop_last() =~= before);
            },
            Ok(None) => {},
            Err(e) => {
                proof {
                    lemma_project_all_err(trees(xs@), i + 1);
                }
                return Err(e);
            },
        }
        i = i + 1;
    }
    assert(trees(xs@).take(i as int) =~= trees(xs@));
    Ok(out)
}

fn project_object(ms: &Vec<(Vec<char>, JsonPP)>) -> (r: Result<Vec<(Vec<char>, Json)>, EvalError>)
    ensures
        match r {
            Ok(ys) => project_members(members(ms@)) == Ok::<Seq<(Seq<char>, JsonView)>, EvalError>(
                jmembers(ys@),
            ),
            Err(e) => project_members(members(ms@)) == Err::<Seq<(Seq<char>, JsonView)>, EvalError>(e),
        },
    decreases ms, 0nat,
{
    let mut out: Vec<(Vec<char>, Json)> = Vec::new();
    let mut i: usize = 0;
    while i < ms.len()
        invariant
            i <= ms@.len(),
            project_members(members(ms@).take(i as int)) == Ok::<
                Seq<(Seq<char>, JsonView)>,
                EvalError,
            >(jmembers(out@)),
        decreases ms@.len() - i,
    {
        proof {
            assert(decreases_to!(ms => ms[i as int]));
            lemma_members(ms@);
            assert(members(ms@).take(i + 1).drop_last() =~= members(ms@).take(i as int));
            assert(members(ms@).take(i + 1).last() == (ms@[i as int].0@, tree(ms@[i as int].1)));
        }
        match try_into_json(&ms[i].1) {
            Ok(Some(j)) => {
                let ghost before = out@;
                out.push((copy_text(&ms[i].0), j));
                assert(out@.drop_last() =~= before);
            },
            Ok(None) => {},
            Err(e) => {
                proof {
                    lemma_project_members_err(members(ms@), i + 1);
                }
                return Err(e);
            },
        }
        i = i + 1;
    }
    assert(members(ms@).take(i as int) =~= members(ms@));
    Ok(out)
}

/// Projects a value to strict JSON (see `project`).
pub fn try_into_json(v: &JsonPP) -> (r: Result<Option<Json>, EvalError>)
    ensures
        projection_view(r) == project(v@),
    decreases v, 1nat,
{
    match v {
        JsonPP::Undefined | JsonPP::Definition(_) => Ok(None),
        JsonPP::Identifier(_) | JsonPP::Dynamic(_) => Err(EvalError::ResidualValue),
        JsonPP::Null => Ok(Some(Json::Null)),
        JsonPP::Bool(b) => Ok(Some(Json::Bool(*b))),
        JsonPP::Int(i) => Ok(Some(Json::Int(*i))),
        JsonPP::Float(f) => Ok(Some(Json::Float(*f))),
        JsonPP::String(s) => Ok(Some(Json::String(copy_text(s)))),
        JsonPP::Array(xs) => match project_array(xs) {
            Ok(ys) => Ok(Some(Json::Array(ys))),
            Err(e) => Err(e),
        },
        JsonPP::Object(ms) => match project_object(ms) {
            Ok(ys) => Ok(Some(Json::Object(ys))),
            Err(e) => Err(e),
        },
    }
}

/// The strict JSON of an evaluated tree; a root that vanishes projects to `null`.
pub fn evaluate_output(root: &JsonPP) -> (r: Result<Json, EvalError>)
    ensures
        project(root@) matches Ok(Some(j)) ==> r matches Ok(x) && x@ == j,
        project(root@) matches Ok(None) ==> r matches Ok(x) && x@ == JsonView::Null,
        project(root@) matches Err(e) ==> r == Err::<Json, EvalError>(e),
{
    match try_into_json(root) {
        Ok(Some(j)) => Ok(j),
        Ok(None) => Ok(Json::Null),
        Err(e) => Err(e),
    }
}

} // verus!
