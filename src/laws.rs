use vstd::prelude::*;

use crate::builtins::{apply, Outcome};
use crate::evaluation::{
    advance_spec, prep, prep_members, prep_seq, remove_path, EvalState, StepView,
};
use crate::jsonpp::{has_dynamics, Tree};
use crate::paths::Chunk;
use crate::projection::{project, project_all, project_members, JsonView};
use crate::substitution::subst;
use crate::tokenizing::{lex, lex_all, lex_step, LexState, Mode};

verus! {

/// The tree is strict JSON: no `undefined`, identifier, definition or dynamic anywhere.
pub open spec fn strict(t: Tree) -> bool
    decreases t,
{
    match t {
        Tree::Null | Tree::Bool(_) | Tree::Int(_) | Tree::Float(_) | Tree::Str(_) => true,
        Tree::Array(xs) => all_strict(xs),
        Tree::Object(ms) => members_strict(ms),
        _ => false,
    }
}

/// Every element is strict JSON.
pub open spec fn all_strict(xs: Seq<Tree>) -> bool
    decreases xs,
{
    xs.len() == 0 || (all_strict(xs.drop_last()) && strict(xs.last()))
}

/// Every member value is strict JSON.
pub open spec fn members_strict(ms: Seq<(Seq<char>, Tree)>) -> bool
    decreases ms,
{
    ms.len() == 0 || (members_strict(ms.drop_last()) && strict(ms.last().1))
}

/// The tree that a strict JSON value stands for.
pub open spec fn tree_of_json(j: JsonView) -> Tree
    decreases j,
{
    match j {
        JsonView::Null => Tree::Null,
        JsonView::Bool(b) => Tree::Bool(b),
        JsonView::Int(i) => Tree::Int(i),
        JsonView::Float(f) => Tree::Float(f),
        JsonView::Str(s) => Tree::Str(s),
        JsonView::Array(xs) => Tree::Array(trees_of_json(xs)),
        JsonView::Object(ms) => Tree::Object(members_of_json(ms)),
    }
}

/// The trees of a sequence of JSON values.
pub open spec fn trees_of_json(xs: Seq<JsonView>) -> Seq<Tree>
    decreases xs,
{
    if xs.len() == 0 {
        Seq::empty()
    } else {
        trees_of_json(xs.drop_last()).push(tree_of_json(xs.last()))
    }
}

/// The members of a JSON object as tree members.
pub open spec fn members_of_json(ms: Seq<(Seq<char>, JsonView)>) -> Seq<(Seq<char>, Tree)>
    decreases ms,
{
    if ms.len() == 0 {
        Seq::empty()
    } else {
        members_of_json(ms.drop_last()).push((ms.last().0, tree_of_json(ms.last().1)))
    }
}

/// Strict JSON goes through unchanged: preprocessing leaves the tree and the pending
/// paths as they are, and projecting it gives a JSON value that stands for the same tree.
pub proof fn lemma_strict_json_round_trip(pending: Seq<Seq<Chunk>>, path: Seq<Chunk>, t: Tree)
    requires
        strict(t),
    ensures
        prep(pending, path, t) == (pending, Ok::<Tree, crate::jsonpp::EvalError>(t)),
        project(t) matches Ok(Some(j)) && tree_of_json(j) == t,
    decreases t,
{
    match t {
        Tree::Array(xs) => {
            lemma_strict_seq(pending, path, xs);
        },
        Tree::Object(ms) => {
            lemma_strict_members(pending, path, ms);
        },
        _ => {},
    }
}

proof fn lemma_strict_seq(pending: Seq<Seq<Chunk>>, path: Seq<Chunk>, xs: Seq<Tree>)
    requires
        all_strict(xs),
    ensures
        prep_seq(pending, path, xs, false) == (pending, Ok::<Seq<Tree>, crate::jsonpp::EvalError>(xs)),
        project_all(xs) matches Ok(ys) && trees_of_json(ys) == xs,
    decreases xs,
{
    if xs.len() > 0 {
        lemma_strict_seq(pending, path, xs.drop_last());
        lemma_strict_json_round_trip(
            pending,
            path.push(crate::evaluation::step_to((xs.len() - 1) as nat, false)),
            xs.last(),
        );
        let ys = project_all(xs.drop_last()).unwrap();
        let y = project(xs.last()).unwrap().unwrap();
        assert(ys.push(y).drop_last() =~= ys);
        assert(xs.drop_last().push(xs.last()) =~= xs);
    } else {
        assert(trees_of_json(Seq::empty()) =~= xs);
    }
}

proof fn lemma_strict_members(pending: Seq<Seq<Chunk>>, path: Seq<Chunk>, ms: Seq<(Seq<char>, Tree)>)
    requires
        members_strict(ms),
    ensures
        prep_members(pending, path, ms) == (pending, Ok::<
            Seq<(Seq<char>, Tree)>,
            crate::jsonpp::EvalError,
        >(ms)),
        project_members(ms) matches Ok(ys) && members_of_json(ys) == ms,
    decreases ms,
{
    if ms.len() > 0 {
        lemma_strict_members(pending, path, ms.drop_last());
        lemma_strict_json_round_trip(pending, path.push(Chunk::Key(ms.last().0)), ms.last().1);
        let ys = project_members(ms.drop_last()).unwrap();
        let y = project(ms.last().1).unwrap().unwrap();
        assert(ys.push((ms.last().0, y)).drop_last() =~= ys);
        assert(ms.drop_last().push((ms.last().0, ms.last().1)) =~= ms);
    } else {
        assert(members_of_json(Seq::empty()) =~= ms);
    }
}

/// A tree without dynamics and with nothing pending is finished at the first step.
pub proof fn lemma_nothing_pending_is_done(t: Tree)
    requires
        !has_dynamics(t),
    ensures
        advance_spec(
            EvalState {
                root: t,
                pending: Seq::empty(),
                round: Seq::empty(),
                next: 0,
                progressed: false,
                waiting: None,
            },
        ).1 == StepView::Done,
{
}

/// A round that ends without resolving or dropping anything, with dynamics still pending,
/// fails with `ReferenceCycle`.
pub proof fn lemma_stalled_round_is_cycle(s: EvalState)
    requires
        s.waiting is None,
        s.next >= s.round.len(),
        s.round.len() > 0,
        s.pending.len() > 0,
        !s.progressed,
    ensures
        advance_spec(s).1 == StepView::Failed(crate::jsonpp::EvalError::ReferenceCycle),
{
}

/// Taking a path out never adds one, and removes one where it was there.
pub proof fn lemma_remove_path_len(pending: Seq<Seq<Chunk>>, p: Seq<Chunk>)
    ensures
        remove_path(pending, p).len() <= pending.len(),
        pending.contains(p) ==> remove_path(pending, p).len() < pending.len(),
    decreases pending.len(),
{
    if pending.len() > 0 {
        lemma_remove_path_len(pending.drop_last(), p);
        if pending.contains(p) && pending.last() != p {
            let i = choose|i: int| 0 <= i < pending.len() && pending[i] == p;
            assert(pending.drop_last()[i] == p);
        }
    }
}

/// Preprocessing a value that holds no dynamic changes nothing.
pub proof fn lemma_prep_without_dynamics(pending: Seq<Seq<Chunk>>, path: Seq<Chunk>, t: Tree)
    requires
        !has_dynamics(t),
    ensures
        prep(pending, path, t) == (pending, Ok::<Tree, crate::jsonpp::EvalError>(t)),
    decreases t,
{
    match t {
        Tree::Array(xs) => lemma_prep_seq_without_dynamics(pending, path, xs),
        Tree::Object(ms) => lemma_prep_members_without_dynamics(pending, path, ms),
        _ => {},
    }
}

proof fn lemma_prep_seq_without_dynamics(pending: Seq<Seq<Chunk>>, path: Seq<Chunk>, xs: Seq<Tree>)
    requires
        !crate::jsonpp::any_has_dynamics(xs),
    ensures
        prep_seq(pending, path, xs, false) == (pending, Ok::<Seq<Tree>, crate::jsonpp::EvalError>(xs)),
    decreases xs,
{
    if xs.len() > 0 {
        lemma_prep_seq_without_dynamics(pending, path, xs.drop_last());
        lemma_prep_without_dynamics(
            pending,
            path.push(crate::evaluation::step_to((xs.len() - 1) as nat, false)),
            xs.last(),
        );
        assert(xs.drop_last().push(xs.last()) =~= xs);
    } else {
        assert(Seq::<Tree>::empty() =~= xs);
    }
}

proof fn lemma_prep_members_without_dynamics(
    pending: Seq<Seq<Chunk>>,
    path: Seq<Chunk>,
    ms: Seq<(Seq<char>, Tree)>,
)
    requires
        !crate::jsonpp::any_member_has_dynamics(ms),
    ensures
        prep_members(pending, path, ms) == (pending, Ok::<
            Seq<(Seq<char>, Tree)>,
            crate::jsonpp::EvalError,
        >(ms)),
    decreases ms,
{
    if ms.len() > 0 {
        lemma_prep_members_without_dynamics(pending, path, ms.drop_last());
        lemma_prep_without_dynamics(pending, path.push(Chunk::Key(ms.last().0)), ms.last().1);
        assert(ms.drop_last().push((ms.last().0, ms.last().1)) =~= ms);
    } else {
        assert(Seq::<(Seq<char>, Tree)>::empty() =~= ms);
    }
}

/// The step resolves a dynamic into a value that itself holds dynamics (as `map`,
/// `filter` and `reduce` do): the only kind of step that adds pending paths.
pub open spec fn spawns(s: EvalState) -> bool {
    (s.next >= s.round.len() && s.pending.len() == 0 && has_dynamics(s.root)) || s.next
        < s.round.len() && {
        let p = s.round[s.next as int];
        match crate::evaluation::fetch(p, s.root) {
            Some(Tree::Dynamic(args, _, deps)) => crate::evaluation::deps_live(p, deps, s.root)
                == Ok::<bool, crate::jsonpp::EvalError>(false) && (apply(args, p, s.root) matches Outcome::Value(v)
                && has_dynamics(v)),
            _ => false,
        }
    }
}

/// During the resolve loop the number of pending dynamics never grows, except by a
/// resolution whose value brings new dynamics; a resolution into a value without dynamics
/// shrinks it.
pub proof fn lemma_pending_never_grows(s: EvalState)
    requires
        s.waiting is None,
        !spawns(s),
        advance_spec(s).1 == StepView::Working,
    ensures
        advance_spec(s).0.pending.len() <= s.pending.len(),
{
    if s.next < s.round.len() {
        let p = s.round[s.next as int];
        lemma_remove_path_len(s.pending, p);
        match crate::evaluation::fetch(p, s.root) {
            Some(Tree::Dynamic(args, _, deps)) => {
                if crate::evaluation::deps_live(p, deps, s.root) == Ok::<bool, crate::jsonpp::EvalError>(false) {
                    if let Outcome::Value(v) = apply(args, p, s.root) {
                        lemma_prep_without_dynamics(s.pending, p, v);
                    }
                }
            },
            _ => {},
        }
    }
}

/// Invoking a definition gives its template with the arguments substituted for the
/// parameters, unevaluated, exactly as if that text had been written in its place.
pub proof fn lemma_definition_call(
    vars: Seq<Seq<char>>,
    template: Tree,
    args: Seq<Tree>,
    path: Seq<Chunk>,
    root: Tree,
)
    requires
        vars.len() == args.len(),
    ensures
        apply(seq![Tree::Definition(vars, Box::new(template))] + args, path, root)
            == Outcome::Value(subst(template, vars, args)),
{
    let all = seq![Tree::Definition(vars, Box::new(template))] + args;
    assert(all.drop_first() =~= args);
}

/// Elements that projection keeps: all but `undefined` and definitions.
pub open spec fn kept(xs: Seq<Tree>) -> nat
    decreases xs.len(),
{
    if xs.len() == 0 {
        0
    } else {
        kept(xs.drop_last()) + if xs.last() is Undefined || xs.last() is Definition {
            0nat
        } else {
            1nat
        }
    }
}

/// Projection leaves no `undefined` in an array: the projected array holds exactly the
/// elements that are neither `undefined` nor definitions.
pub proof fn lemma_undefined_elided(xs: Seq<Tree>)
    ensures
        project_all(xs) matches Ok(ys) ==> ys.len() == kept(xs),
    decreases xs.len(),
{
    if xs.len() > 0 {
        lemma_undefined_elided(xs.drop_last());
        let last = xs.last();
        assert(project(last) matches Ok(None) ==> (last is Undefined || last is Definition));
        assert((last is Undefined || last is Definition) ==> project(last) == Ok::<
            Option<JsonView>,
            crate::jsonpp::EvalError,
        >(None));
    }
}

/// Members that projection keeps: all but those whose value is `undefined` or a definition.
pub open spec fn kept_members(ms: Seq<(Seq<char>, Tree)>) -> nat
    decreases ms.len(),
{
    if ms.len() == 0 {
        0
    } else {
        kept_members(ms.drop_last()) + if ms.last().1 is Undefined || ms.last().1 is Definition {
            0nat
        } else {
            1nat
        }
    }
}

/// Projection leaves no `undefined` member in an object: the projected object holds
/// exactly the members whose value is neither `undefined` nor a definition.
pub proof fn lemma_undefined_members_elided(ms: Seq<(Seq<char>, Tree)>)
    ensures
        project_members(ms) matches Ok(ys) ==> ys.len() == kept_members(ms),
    decreases ms.len(),
{
    if ms.len() > 0 {
        lemma_undefined_members_elided(ms.drop_last());
        let last = ms.last().1;
        assert(project(last) matches Ok(None) ==> (last is Undefined || last is Definition));
        assert((last is Undefined || last is Definition) ==> project(last) == Ok::<
            Option<JsonView>,
            crate::jsonpp::EvalError,
        >(None));
    }
}

/// No identifier or dynamic is reachable through arrays and objects (definitions are
/// opaque).
pub open spec fn residue_free(t: Tree) -> bool
    decreases t,
{
    match t {
        Tree::Identifier(_) | Tree::Dynamic(..) => false,
        Tree::Array(xs) => all_residue_free(xs),
        Tree::Object(ms) => members_residue_free(ms),
        _ => true,
    }
}

/// Every element is free of residue.
pub open spec fn all_residue_free(xs: Seq<Tree>) -> bool
    decreases xs,
{
    xs.len() == 0 || (all_residue_free(xs.drop_last()) && residue_free(xs.last()))
}

/// Every member value is free of residue.
pub open spec fn members_residue_free(ms: Seq<(Seq<char>, Tree)>) -> bool
    decreases ms,
{
    ms.len() == 0 || (members_residue_free(ms.drop_last()) && residue_free(ms.last().1))
}

/// Projection succeeds on a tree without residue, and the tree vanishes exactly when it is
/// `undefined` or a definition.
pub proof fn lemma_projection_succeeds(t: Tree)
    requires
        residue_free(t),
    ensures
        project(t) is Ok,
        project(t) == Ok::<Option<JsonView>, crate::jsonpp::EvalError>(None) <==> (t is Undefined
            || t is Definition),
    decreases t,
{
    match t {
        Tree::Array(xs) => lemma_project_all_succeeds(xs),
        Tree::Object(ms) => lemma_project_members_succeeds(ms),
        _ => {},
    }
}

proof fn lemma_project_all_succeeds(xs: Seq<Tree>)
    requires
        all_residue_free(xs),
    ensures
        project_all(xs) is Ok,
    decreases xs,
{
    if xs.len() > 0 {
        lemma_project_all_succeeds(xs.drop_last());
        lemma_projection_succeeds(xs.last());
    }
}

proof fn lemma_project_members_succeeds(ms: Seq<(Seq<char>, Tree)>)
    requires
        members_residue_free(ms),
    ensures
        project_members(ms) is Ok,
    decreases ms,
{
    if ms.len() > 0 {
        lemma_project_members_succeeds(ms.drop_last());
        lemma_projection_succeeds(ms.last().1);
    }
}

/// Evaluation is deterministic: a step is a function of the state alone.
pub proof fn lemma_step_deterministic(s1: EvalState, s2: EvalState)
    requires
        s1 == s2,
    ensures
        advance_spec(s1) == advance_spec(s2),
{
}

/// The tokenizer's state after reading `s` from `st`.
pub open spec fn lex_from(st: LexState, s: Seq<char>) -> LexState
    decreases s.len(),
{
    if s.len() == 0 {
        st
    } else {
        lex_step(lex_from(st, s.drop_last()), s.last())
    }
}

proof fn lemma_lex_split(a: Seq<char>, b: Seq<char>)
    ensures
        lex_all(a + b) == lex_from(lex_all(a), b),
    decreases b.len(),
{
    if b.len() == 0 {
        assert(a + b =~= a);
    } else {
        assert((a + b).drop_last() =~= a + b.drop_last());
        assert((a + b).last() == b.last());
        lemma_lex_split(a, b.drop_last());
    }
}

proof fn lemma_lex_from_split(st: LexState, a: Seq<char>, b: Seq<char>)
    ensures
        lex_from(st, a + b) == lex_from(lex_from(st, a), b),
    decreases b.len(),
{
    if b.len() == 0 {
        assert(a + b =~= a);
    } else {
        assert((a + b).drop_last() =~= a + b.drop_last());
        assert((a + b).last() == b.last());
        lemma_lex_from_split(st, a, b.drop_last());
    }
}

proof fn lemma_lex_one(st: LexState, c: char)
    ensures
        lex_from(st, seq![c]) == lex_step(st, c),
{
    assert(seq![c].drop_last() =~= Seq::<char>::empty());
    assert(lex_from(st, Seq::<char>::empty()) == st);
    assert(seq![c].last() == c);
}

proof fn lemma_lex_two(st: LexState, c1: char, c2: char)
    ensures
        lex_from(st, seq![c1, c2]) == lex_step(lex_step(st, c1), c2),
{
    assert(seq![c1, c2].drop_last() =~= seq![c1]);
    lemma_lex_one(st, c1);
    assert(seq![c1, c2].last() == c2);
}

/// A piece of input that, read between tokens, leaves the tokenizer as it was, can be
/// removed without changing the tokens.
proof fn lemma_neutral_piece(prefix: Seq<char>, piece: Seq<char>, suffix: Seq<char>)
    requires
        lex_from(lex_all(prefix), piece) == lex_all(prefix),
    ensures
        lex(prefix + piece + suffix) == lex(prefix + suffix),
{
    lemma_lex_split(prefix + piece, suffix);
    lemma_lex_split(prefix, piece);
    lemma_lex_split(prefix, suffix);
}

/// Commas are optional: removing a comma that stands between tokens does not change the
/// tokens, and so not the evaluation.
pub proof fn lemma_comma_between_tokens(prefix: Seq<char>, suffix: Seq<char>)
    requires
        lex_all(prefix).mode == Mode::Normal,
    ensures
        lex(prefix + seq![','] + suffix) == lex(prefix + suffix),
{
    let st = lex_all(prefix);
    lemma_lex_one(st, ',');
    lemma_neutral_piece(prefix, seq![','], suffix);
}

proof fn lemma_line_body(st: LexState, body: Seq<char>)
    requires
        st.mode == Mode::Line,
        forall|i: int| 0 <= i < body.len() ==> body[i] != '\n',
    ensures
        lex_from(st, body) == st,
    decreases body.len(),
{
    if body.len() > 0 {
        lemma_line_body(st, body.drop_last());
        assert(body.last() == body[body.len() - 1]);
    }
}

/// Removing a line comment (`//`, text without a line break, the line break) that stands
/// between tokens does not change the tokens.
pub proof fn lemma_line_comment_between_tokens(prefix: Seq<char>, body: Seq<char>, suffix: Seq<char>)
    requires
        lex_all(prefix).mode == Mode::Normal,
        forall|i: int| 0 <= i < body.len() ==> body[i] != '\n',
    ensures
        lex(prefix + (seq!['/', '/'] + body + seq!['\n']) + suffix) == lex(prefix + suffix),
{
    let st = lex_all(prefix);
    let open = seq!['/', '/'];
    lemma_lex_two(st, '/', '/');
    let in_line = lex_from(st, open);
    assert(in_line == LexState { mode: Mode::Line, ..st });
    lemma_line_body(in_line, body);
    lemma_lex_from_split(st, open, body);
    lemma_lex_from_split(st, open + body, seq!['\n']);
    lemma_lex_one(in_line, '\n');
    lemma_neutral_piece(prefix, open + body + seq!['\n'], suffix);
}

proof fn lemma_block_body(st: LexState, body: Seq<char>)
    requires
        st.mode == Mode::Block,
        forall|i: int| 0 <= i < body.len() ==> body[i] != '*',
    ensures
        lex_from(st, body) == st,
    decreases body.len(),
{
    if body.len() > 0 {
        lemma_block_body(st, body.drop_last());
        assert(body.last() == body[body.len() - 1]);
    }
}

/// Removing a block comment (`/*`, text without `*` that does not start with `/`, `*/`)
/// that stands between tokens does not change the tokens.
pub proof fn lemma_block_comment_between_tokens(prefix: Seq<char>, body: Seq<char>, suffix: Seq<char>)
    requires
        lex_all(prefix).mode == Mode::Normal,
        forall|i: int| 0 <= i < body.len() ==> body[i] != '*',
        body.len() == 0 || body[0] != '/',
    ensures
        lex(prefix + (seq!['/', '*'] + body + seq!['*', '/']) + suffix) == lex(prefix + suffix),
{
    let st = lex_all(prefix);
    let open = seq!['/', '*'];
    let close = seq!['*', '/'];
    lemma_lex_two(st, '/', '*');
    let star = lex_from(st, open);
    lemma_lex_two(star, '*', '/');
    assert(star == LexState { mode: Mode::BlockStar, ..st });
    lemma_lex_from_split(st, open, body);
    let after_body = lex_from(star, body);
    if body.len() == 0 {
        assert(after_body == star);
        lemma_lex_from_split(st, open + body, close);
        assert(lex_from(star, close) == LexState { mode: Mode::Normal, ..st });
    } else {
        let first = body.take(1);
        let rest = body.skip(1);
        assert(first + rest =~= body);
        assert(first =~= seq![body[0]]);
        lemma_lex_one(star, body[0]);
        lemma_lex_from_split(star, first, rest);
        let in_block = lex_from(star, first);
        assert(in_block == LexState { mode: Mode::Block, ..st });
        lemma_block_body(in_block, rest);
        lemma_lex_from_split(st, open + body, close);
        lemma_lex_two(in_block, '*', '/');
        assert(lex_from(in_block, close) == LexState { mode: Mode::Normal, ..st });
    }
    lemma_neutral_piece(prefix, open + body + close, suffix);
}

} // verus!
