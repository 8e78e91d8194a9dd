use vstd::prelude::*;

use crate::builtins::upsert;
use crate::evaluation::member_index;
use crate::evaluation::{find_key, lemma_find_key};
use crate::jsonpp::{
    all_wf, keys_unique, lemma_all_wf, lemma_members, lemma_members_wf, lemma_trees, members,
    members_wf, paths, text_is, trees, wf_tree, Dynamic, EvalError, JsonPP, Tree,
};
use crate::paths::{copy_text, path_view, Chunk, PathChunk};
use crate::tokenizing::{toks, Tok, Token};

verus! {

broadcast use lemma_trees, lemma_members;

/// The value that an identifier token stands for: the literals, else an identifier.
pub open spec fn word_value(s: Seq<char>) -> Tree {
    if s == "undefined"@ {
        Tree::Undefined
    } else if s == "null"@ {
        Tree::Null
    } else if s == "true"@ {
        Tree::Bool(true)
    } else if s == "false"@ {
        Tree::Bool(false)
    } else {
        Tree::Identifier(s)
    }
}

/// The value that starts at token `pos`, and the position after it. `None` where the
/// tokens run out, a closer or colon stands where a value should, or a number was not
/// converted to a float. A dynamic gets an empty path and no dependencies: a tree is
/// preprocessed before it is evaluated, and preprocessing gives every dynamic its location
/// and dependencies (see `prep`), whatever it held before; the builder does not track
/// locations, so an imported tree and the document are built alike.
pub open spec fn build_spec(ts: Seq<Tok>, pos: int) -> Option<(Tree, int)>
    decreases ts.len() - pos, 1int,
{
    if pos < 0 || pos >= ts.len() {
        None
    } else {
        match ts[pos] {
            Tok::Int(i) => Some((Tree::Int(i), pos + 1)),
            Tok::Float(f) => Some((Tree::Float(f), pos + 1)),
            Tok::Text(s) => Some((Tree::Str(s), pos + 1)),
            Tok::Ident(s) => Some((word_value(s), pos + 1)),
            Tok::OpenParanthesis => match build_seq(ts, pos + 1, true, Seq::empty()) {
                Some((xs, p)) => Some((Tree::Dynamic(xs, Seq::empty(), Seq::empty()), p)),
                None => None,
            },
            Tok::OpenBracket => match build_seq(ts, pos + 1, false, Seq::empty()) {
                Some((xs, p)) => Some((Tree::Array(xs), p)),
                None => None,
            },
            Tok::OpenBrace => match build_members(ts, pos + 1, Seq::empty()) {
                Some((ms, p)) => Some((Tree::Object(ms), p)),
                None => None,
            },
            _ => None,
        }
    }
}

/// The closer of a dynamic (`dynamic` true) or an array.
pub open spec fn closer(dynamic: bool) -> Tok {
    if dynamic {
        Tok::CloseParanthesis
    } else {
        Tok::CloseBracket
    }
}

/// Values from `pos` up to the closer, appended to `acc`.
pub open spec fn build_seq(ts: Seq<Tok>, pos: int, dynamic: bool, acc: Seq<Tree>) -> Option<
    (Seq<Tree>, int),
>
    decreases ts.len() - pos, 2int,
{
    if pos < 0 || pos >= ts.len() {
        None
    } else if ts[pos] == closer(dynamic) {
        Some((acc, pos + 1))
    } else {
        match build_spec(ts, pos) {
            Some((v, p)) => if pos < p <= ts.len() {
                build_seq(ts, p, dynamic, acc.push(v))
            } else {
                None
            },
            None => None,
        }
    }
}

/// Members from `pos` up to `}`: a string key, a colon, a value; a later key wins. Tokens
/// that cannot start a member are passed over.
pub open spec fn build_members(ts: Seq<Tok>, pos: int, acc: Seq<(Seq<char>, Tree)>) -> Option<
    (Seq<(Seq<char>, Tree)>, int),
>
    decreases ts.len() - pos, 2int,
{
    if pos < 0 || pos >= ts.len() {
        None
    } else {
        match ts[pos] {
            Tok::CloseBrace => Some((acc, pos + 1)),
            Tok::Text(k) => if pos + 1 < ts.len() && ts[pos + 1] == Tok::Colon {
                match build_spec(ts, pos + 2) {
                    Some((v, p)) => if pos < p <= ts.len() {
                        build_members(ts, p, upsert(acc, (k, v)))
                    } else {
                        None
                    },
                    None => None,
                }
            } else {
                None
            },
            _ => build_members(ts, pos + 1, acc),
        }
    }
}

/// The tree of a token sequence: the value at its start.
pub open spec fn ast_of(ts: Seq<Tok>) -> Result<Tree, EvalError> {
    match build_spec(ts, 0) {
        Some((v, _)) => Ok(v),
        None => Err(EvalError::ParseError),
    }
}

fn word_exec(s: &Vec<char>) -> (r: JsonPP)
    ensures
        r@ == word_value(s@),
{
    if text_is(s, "undefined") {
        JsonPP::Undefined
    } else if text_is(s, "null") {
        JsonPP::Null
    } else if text_is(s, "true") {
        JsonPP::Bool(true)
    } else if text_is(s, "false") {
        JsonPP::Bool(false)
    } else {
        JsonPP::Identifier(copy_text(s))
    }
}

fn is_closer(t: &Token, dynamic: bool) -> (r: bool)
    ensures
        r == (t@ == closer(dynamic)),
{
    match t {
        Token::CloseParanthesis => dynamic,
        Token::CloseBracket => !dynamic,
        _ => false,
    }
}

/// Values up to the closer (see `build_seq`).
fn build_items(tokens: &Vec<Token>, pos: usize, dynamic: bool) -> (r: Option<(Vec<JsonPP>, usize)>)
    ensures
        match r {
            Some((xs, p)) => build_seq(toks(tokens@), pos as int, dynamic, Seq::empty()) == Some(
                (trees(xs@), p as int),
            ),
            None => build_seq(toks(tokens@), pos as int, dynamic, Seq::empty()) is None,
        },
    decreases tokens@.len() - pos, 2int,
{
    let ghost ts = toks(tokens@);
    let mut items: Vec<JsonPP> = Vec::new();
    let mut at: usize = pos;
    assert(trees(items@) =~= Seq::<Tree>::empty());
    loop
        invariant
            pos <= at,
            ts == toks(tokens@),
            build_seq(ts, pos as int, dynamic, Seq::empty()) == build_seq(
                ts,
                at as int,
                dynamic,
                trees(items@),
            ),
        decreases tokens@.len() - at,
    {
        if at >= tokens.len() {
            return None;
        }
        if is_closer(&tokens[at], dynamic) {
            return Some((items, at + 1));
        }
        match build(tokens, at) {
            Some((v, p)) => {
                if p <= at || p > tokens.len() {
                    return None;
                }
                let ghost before = items@;
                items.push(v);
                assert(trees(items@) =~= trees(before).push(v@));
                at = p;
            },
            None => {
                return None;
            },
        }
    }
}

/// Members up to `}` (see `build_members`).
fn build_object(tokens: &Vec<Token>, pos: usize) -> (r: Option<(Vec<(Vec<char>, JsonPP)>, usize)>)
    ensures
        match r {
            Some((ms, p)) => build_members(toks(tokens@), pos as int, Seq::empty()) == Some(
                (members(ms@), p as int),
            ),
            None => build_members(toks(tokens@), pos as int, Seq::empty()) is None,
        },
    decreases tokens@.len() - pos, 2int,
{
    let ghost ts = toks(tokens@);
    let mut ms: Vec<(Vec<char>, JsonPP)> = Vec::new();
    let mut at: usize = pos;
    assert(members(ms@) =~= Seq::<(Seq<char>, Tree)>::empty());
    loop
        invariant
            pos <= at,
            ts == toks(tokens@),
            build_members(ts, pos as int, Seq::empty()) == build_members(
                ts,
                at as int,
                members(ms@),
            ),
        decreases tokens@.len() - at,
    {
        if at >= tokens.len() {
            return None;
        }
        match &tokens[at] {
            Token::CloseBrace => {
                return Some((ms, at + 1));
            },
            Token::Text(k) => {
                if !(at + 1 < tokens.len() && matches!(tokens[at + 1], Token::Colon)) {
                    return None;
                }
                match build(tokens, at + 2) {
                    Some((v, p)) => {
                        if p <= at || p > tokens.len() {
                            return None;
                        }
                        let ghost before = members(ms@);
                        match member_index(&ms, k) {
                            Some(j) => {
                                ms.set(j, (copy_text(k), v));
                                assert(members(ms@) =~= before.update(j as int, (k@, v@)));
                            },
                            None => {
                                ms.push((copy_text(k), v));
                                assert(members(ms@) =~= before.push((k@, v@)));
                            },
                        }
                        at = p;
                    },
                    None => {
                        return None;
                    },
                }
            },
            _ => {
                at = at + 1;
            },
        }
    }
}

/// A fresh dynamic with no path and no dependencies yet; preprocessing gives it both.
fn new_dynamic(args: Vec<JsonPP>) -> (r: JsonPP)
    ensures
        r@ == Tree::Dynamic(trees(args@), Seq::empty(), Seq::empty()),
{
    let path: Vec<PathChunk> = Vec::new();
    let dependencies: Vec<Vec<PathChunk>> = Vec::new();
    assert(path_view(path@) =~= Seq::<Chunk>::empty());
    assert(paths(dependencies@) =~= Seq::<Seq<Chunk>>::empty());
    JsonPP::Dynamic(Dynamic { args, path, dependencies })
}

/// The value that starts at token `pos` (see `build_spec`).
fn build(tokens: &Vec<Token>, pos: usize) -> (r: Option<(JsonPP, usize)>)
    ensures
        match r {
            Some((v, p)) => build_spec(toks(tokens@), pos as int) == Some((v@, p as int)),
            None => build_spec(toks(tokens@), pos as int) is None,
        },
    decreases tokens@.len() - pos, 1int,
{
    if pos >= tokens.len() {
        return None;
    }
    match &tokens[pos] {
        Token::Int(i) => Some((JsonPP::Int(*i), pos + 1)),
        Token::Float(f) => Some((JsonPP::Float(*f), pos + 1)),
        Token::Text(s) => Some((JsonPP::String(copy_text(s)), pos + 1)),
        Token::Ident(s) => Some((word_exec(s), pos + 1)),
        Token::OpenParanthesis => match build_items(tokens, pos + 1, true) {
            Some((xs, p)) => Some((new_dynamic(xs), p)),
            None => None,
        },
        Token::OpenBracket => match build_items(tokens, pos + 1, false) {
            Some((xs, p)) => Some((JsonPP::Array(xs), p)),
            None => None,
        },
        Token::OpenBrace => match build_object(tokens, pos + 1) {
            Some((ms, p)) => Some((JsonPP::Object(ms), p)),
            None => None,
        },
        _ => None,
    }
}

/// The tree of a token sequence (see `ast_of`).
pub fn build_ast(token_stream: &Vec<Token>) -> (r: Result<JsonPP, EvalError>)
    ensures
        match r {
            Ok(v) => ast_of(toks(token_stream@)) == Ok::<Tree, EvalError>(v@),
            Err(e) => ast_of(toks(token_stream@)) == Err::<Tree, EvalError>(e),
        },
        r matches Ok(v) ==> wf_tree(v@),
{
    proof {
        lemma_build_wf(toks(token_stream@), 0);
    }
    match build(token_stream, 0) {
        Some((v, _)) => Ok(v),
        None => Err(EvalError::ParseError),
    }
}

/// Writing a member into an object keeps its keys unique and its values well-formed.
pub proof fn lemma_upsert_wf(acc: Seq<(Seq<char>, Tree)>, m: (Seq<char>, Tree))
    requires
        keys_unique(acc),
        members_wf(acc),
        wf_tree(m.1),
    ensures
        keys_unique(upsert(acc, m)),
        members_wf(upsert(acc, m)),
{
    lemma_find_key(acc, m.0);
    lemma_members_wf(acc);
    let r = upsert(acc, m);
    lemma_members_wf(r);
    match find_key(acc, m.0) {
        Some(j) => {
            assert forall|a: int, b: int| 0 <= a < b < r.len() implies r[a].0 != r[b].0 by {
                if a != j && b != j {
                    assert(r[a] == acc[a] && r[b] == acc[b]);
                } else if a == j {
                    assert(r[b] == acc[b]);
                } else {
                    assert(r[a] == acc[a]);
                }
            }
            assert forall|i: int| 0 <= i < r.len() implies #[trigger] wf_tree(r[i].1) by {
                if i != j {
                    assert(r[i] == acc[i]);
                }
            }
        },
        None => {
            assert forall|a: int, b: int| 0 <= a < b < r.len() implies r[a].0 != r[b].0 by {
                if b == acc.len() {
                    assert(r[a] == acc[a]);
                } else {
                    assert(r[a] == acc[a] && r[b] == acc[b]);
                }
            }
            assert forall|i: int| 0 <= i < r.len() implies #[trigger] wf_tree(r[i].1) by {
                if i < acc.len() {
                    assert(r[i] == acc[i]);
                }
            }
        },
    }
}

/// Every tree that the builder makes is well-formed.
pub proof fn lemma_build_wf(ts: Seq<Tok>, pos: int)
    ensures
        build_spec(ts, pos) matches Some((v, _)) ==> wf_tree(v),
    decreases ts.len() - pos, 1int,
{
    if 0 <= pos < ts.len() {
        match ts[pos] {
            Tok::OpenParanthesis => lemma_build_seq_wf(ts, pos + 1, true, Seq::empty()),
            Tok::OpenBracket => lemma_build_seq_wf(ts, pos + 1, false, Seq::empty()),
            Tok::OpenBrace => lemma_build_members_wf(ts, pos + 1, Seq::empty()),
            _ => {},
        }
    }
}

proof fn lemma_build_seq_wf(ts: Seq<Tok>, pos: int, dynamic: bool, acc: Seq<Tree>)
    requires
        all_wf(acc),
    ensures
        build_seq(ts, pos, dynamic, acc) matches Some((xs, _)) ==> all_wf(xs),
    decreases ts.len() - pos, 2int,
{
    if 0 <= pos < ts.len() && ts[pos] != closer(dynamic) {
        lemma_build_wf(ts, pos);
        if let Some((v, p)) = build_spec(ts, pos) {
            if pos < p <= ts.len() {
                assert(acc.push(v).drop_last() =~= acc);
                lemma_build_seq_wf(ts, p, dynamic, acc.push(v));
            }
        }
    }
}

proof fn lemma_build_members_wf(ts: Seq<Tok>, pos: int, acc: Seq<(Seq<char>, Tree)>)
    requires
        keys_unique(acc),
        members_wf(acc),
    ensures
        build_members(ts, pos, acc) matches Some((ms, _)) ==> keys_unique(ms) && members_wf(ms),
    decreases ts.len() - pos, 2int,
{
    if 0 <= pos < ts.len() {
        match ts[pos] {
            Tok::CloseBrace => {},
            Tok::Text(k) => {
                if pos + 1 < ts.len() && ts[pos + 1] == Tok::Colon {
                    lemma_build_wf(ts, pos + 2);
                    if let Some((v, p)) = build_spec(ts, pos + 2) {
                        if pos < p <= ts.len() {
                            lemma_upsert_wf(acc, (k, v));
                            lemma_build_members_wf(ts, p, upsert(acc, (k, v)));
                        }
                    }
                }
            },
            _ => lemma_build_members_wf(ts, pos + 1, acc),
        }
    }
}

} // verus!
