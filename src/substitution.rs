use vstd::prelude::*;

use crate::jsonpp::{
    copy_paths, copy_texts, lemma_members, lemma_trees, members, tree, trees, texts, Definition,
    Dynamic, EvalError, JsonPP, Tree,
};
use crate::paths::{copy_path, copy_text, text_eq};

verus! {

broadcast use lemma_trees, lemma_members;

/// The argument bound to `name`: the last parameter of that name wins.
pub open spec fn binding(vars: Seq<Seq<char>>, args: Seq<Tree>, name: Seq<char>) -> Option<Tree>
    decreases vars.len(),
{
    if vars.len() == 0 || args.len() == 0 {
        None
    } else if vars.last() == name {
        Some(args[vars.len() - 1])
    } else {
        binding(vars.drop_last(), args, name)
    }
}

/// `t` with every identifier that names a parameter replaced by its argument; arrays,
/// objects, definitions and dynamics are rewritten inside, nothing is evaluated.
pub open spec fn subst(t: Tree, vars: Seq<Seq<char>>, args: Seq<Tree>) -> Tree
    decreases t,
{
    match t {
        Tree::Identifier(name) => match binding(vars, args, name) {
            Some(a) => a,
            None => t,
        },
        Tree::Array(xs) => Tree::Array(subst_all(xs, vars, args)),
        Tree::Object(ms) => Tree::Object(subst_members(ms, vars, args)),
        Tree::Definition(vs, body) => Tree::Definition(vs, Box::new(subst(*body, vars, args))),
        Tree::Dynamic(xs, p, deps) => Tree::Dynamic(subst_all(xs, vars, args), p, deps),
        _ => t,
    }
}

/// `subst` on each element.
pub open spec fn subst_all(s: Seq<Tree>, vars: Seq<Seq<char>>, args: Seq<Tree>) -> Seq<Tree>
    decreases s,
{
    if s.len() == 0 {
        Seq::empty()
    } else {
        subst_all(s.drop_last(), vars, args).push(subst(s.last(), vars, args))
    }
}

/// `subst` on each member value.
pub open spec fn subst_members(
    s: Seq<(Seq<char>, Tree)>,
    vars: Seq<Seq<char>>,
    args: Seq<Tree>,
) -> Seq<(Seq<char>, Tree)>
    decreases s,
{
    if s.len() == 0 {
        Seq::empty()
    } else {
        subst_members(s.drop_last(), vars, args).push((s.last().0, subst(s.last().1, vars, args)))
    }
}

pub broadcast proof fn lemma_subst_all(s: Seq<Tree>, vars: Seq<Seq<char>>, args: Seq<Tree>)
    ensures
        #[trigger] subst_all(s, vars, args).len() == s.len(),
        forall|i: int|
            0 <= i < s.len() ==> #[trigger] subst_all(s, vars, args)[i] == subst(s[i], vars, args),
    decreases s.len(),
{
    if s.len() > 0 {
        lemma_subst_all(s.drop_last(), vars, args);
    }
}

pub broadcast proof fn lemma_subst_members(
    s: Seq<(Seq<char>, Tree)>,
    vars: Seq<Seq<char>>,
    args: Seq<Tree>,
)
    ensures
        #[trigger] subst_members(s, vars, args).len() == s.len(),
        forall|i: int|
            0 <= i < s.len() ==> #[trigger] subst_members(s, vars, args)[i] == (
                s[i].0,
                subst(s[i].1, vars, args),
            ),
    decreases s.len(),
{
    if s.len() > 0 {
        lemma_subst_members(s.drop_last(), vars, args);
    }
}

/// The argument bound to `name`, if any.
fn lookup_binding(vars: &Vec<Vec<char>>, args: &Vec<JsonPP>, name: &Vec<char>) -> (r: Option<
    usize,
>)
    requires
        vars@.len() == args@.len(),
    ensures
        r matches Some(i) ==> i < args@.len() && binding(texts(vars@), trees(args@), name@) == Some(
            args@[i as int]@,
        ),
        r is None ==> binding(texts(vars@), trees(args@), name@) is None,
{
    let mut n: usize = vars.len();
    assert(texts(vars@).take(n as int) =~= texts(vars@));
    while n > 0
        invariant
            n <= vars@.len(),
            vars@.len() == args@.len(),
            binding(texts(vars@), trees(args@), name@) == binding(
                texts(vars@).take(n as int),
                trees(args@),
                name@,
            ),
        decreases n,
    {
        let ghost vs = texts(vars@).take(n as int);
        assert(vs.drop_last() =~= texts(vars@).take(n - 1));
        if text_eq(&vars[n - 1], name) {
            return Some(n - 1);
        }
        n = n - 1;
    }
    None
}

/// `object` with the parameters `vars` replaced by `args` (see `subst`).
#[verifier::loop_isolation(false)]
pub fn recursive_substitute(object: &JsonPP, vars: &Vec<Vec<char>>, args: &Vec<JsonPP>) -> (r:
    JsonPP)
    requires
        vars@.len() == args@.len(),
    ensures
        r@ == subst(object@, texts(vars@), trees(args@)),
    decreases object, 1nat,
{
    broadcast use lemma_subst_all, lemma_subst_members;

    match object {
        JsonPP::Identifier(name) => {
            match lookup_binding(vars, args, name) {
                Some(i) => crate::jsonpp::copy_value(&args[i]),
                None => JsonPP::Identifier(copy_text(name)),
            }
        },
        JsonPP::Array(xs) => JsonPP::Array(substitute_all(xs, vars, args)),
        JsonPP::Object(ms) => {
            let mut out: Vec<(Vec<char>, JsonPP)> = Vec::new();
            let mut i: usize = 0;
            while i < ms.len()
                invariant
                    i <= ms@.len(),
                    vars@.len() == args@.len(),
                    out@.len() == i,
                    forall|j: int|
                        0 <= j < i ==> (#[trigger] out@[j]).0@ == ms@[j].0@ && tree(out@[j].1)
                            == subst(tree(ms@[j].1), texts(vars@), trees(args@)),
                decreases ms@.len() - i,
            {
                proof {
                    assert(decreases_to!(ms => ms[i as int]));
                }
                let v = recursive_substitute(&ms[i].1, vars, args);
                out.push((copy_text(&ms[i].0), v));
                i = i + 1;
            }
            assert(members(out@) =~= subst_members(members(ms@), texts(vars@), trees(args@)));
            JsonPP::Object(out)
        },
        JsonPP::Definition(d) => JsonPP::Definition(
            Definition {
                vars: copy_texts(&d.vars),
                template: Box::new(recursive_substitute(&d.template, vars, args)),
            },
        ),
        JsonPP::Dynamic(d) => JsonPP::Dynamic(
            Dynamic {
                args: substitute_all(&d.args, vars, args),
                path: copy_path(d.path.as_slice()),
                dependencies: copy_paths(&d.dependencies),
            },
        ),
        other => crate::jsonpp::copy_value(other),
    }
}

/// Each element of `xs` substituted.
fn substitute_all(xs: &Vec<JsonPP>, vars: &Vec<Vec<char>>, args: &Vec<JsonPP>) -> (r: Vec<JsonPP>)
    requires
        vars@.len() == args@.len(),
    ensures
        trees(r@) == subst_all(trees(xs@), texts(vars@), trees(args@)),
    decreases xs, 0nat,
{
    broadcast use lemma_subst_all;

    let mut out: Vec<JsonPP> = Vec::new();
    let mut i: usize = 0;
    while i < xs.len()
        invariant
            i <= xs@.len(),
            vars@.len() == args@.len(),
            out@.len() == i,
            forall|j: int|
                0 <= j < i ==> tree(#[trigger] out@[j]) == subst(
                    tree(xs@[j]),
                    texts(vars@),
                    trees(args@),
                ),
        decreases xs@.len() - i,
    {
        proof {
            assert(decreases_to!(xs => xs[i as int]));
        }
        out.push(recursive_substitute(&xs[i], vars, args));
        i = i + 1;
    }
    assert(trees(out@) =~= subst_all(trees(xs@), texts(vars@), trees(args@)));
    out
}

/// Invokes a definition: its template with the parameters replaced by `args`, which must
/// match the parameters in number.
pub fn definition_substitution(def: &Definition, args: &Vec<JsonPP>) -> (r: Result<
    JsonPP,
    EvalError,
>)
    ensures
        def.vars@.len() == args@.len() <==> r is Ok,
        r matches Ok(v) ==> v@ == subst(def.template@, texts(def.vars@), trees(args@)),
        r matches Err(e) ==> e == EvalError::ArityMismatch,
{
    if def.vars.len() != args.len() {
        return Err(EvalError::ArityMismatch);
    }
    Ok(recursive_substitute(&def.template, &def.vars, args))
}

} // verus!
