use vstd::prelude::*;

use crate::paths::{copy_path, copy_text, path_view, Chunk, PathChunk};

verus! {

/// A JSON++ value: strict JSON plus the evaluator's own variants.
#[derive(Debug)]
pub enum JsonPP {
    /// Elided from containers when projected; used as a sentinel.
    Undefined,
    Null,
    Bool(bool),
    String(Vec<char>),
    Int(i64),
    /// A 64-bit IEEE-754 number, held as its bit pattern.
    Float(u64),
    Array(Vec<JsonPP>),
    /// Members in insertion order; keys are unique.
    Object(Vec<(Vec<char>, JsonPP)>),
    /// A bare word: an operator name or a template parameter.
    Identifier(Vec<char>),
    Definition(Definition),
    Dynamic(Dynamic),
}

/// A template made by `def`: parameter names and a body.
#[derive(Debug)]
pub struct Definition {
    pub vars: Vec<Vec<char>>,
    pub template: Box<JsonPP>,
}

/// An unevaluated expression: `args[0]` is the operator, the rest its operands.
#[derive(Debug)]
pub struct Dynamic {
    pub args: Vec<JsonPP>,
    pub path: Vec<PathChunk>,
    pub dependencies: Vec<Vec<PathChunk>>,
}

/// Why an evaluation stopped.
#[derive(Debug, Clone, Copy, PartialEq, Eq, Structural)]
pub enum EvalError {
    /// The input text is not JSON++.
    ParseError,
    /// A builtin got an operand of a kind it does not take.
    TypeMismatch,
    /// A builtin or template got the wrong number of operands.
    ArityMismatch,
    /// `div` or `mod` with a zero divisor.
    DivisionByZero,
    /// A reference whose nearest existing ancestor is not a dynamic.
    DanglingReference,
    /// A round of resolution made no progress.
    ReferenceCycle,
    /// An operator name that is no builtin.
    UnknownFunction,
    /// A file of `include` or `import` could not be read.
    IOError,
    /// An identifier or dynamic is left when projecting.
    ResidualValue,
    /// An operand of the right kind outside the operation's domain: integer overflow,
    /// a logarithm base of one, a number text that does not read.
    InvalidOperand,
}

/// The mathematical form of a `JsonPP`.
pub enum Tree {
    Undefined,
    Null,
    Bool(bool),
    Str(Seq<char>),
    Int(i64),
    Float(u64),
    Array(Seq<Tree>),
    Object(Seq<(Seq<char>, Tree)>),
    Identifier(Seq<char>),
    Definition(Seq<Seq<char>>, Box<Tree>),
    Dynamic(Seq<Tree>, Seq<Chunk>, Seq<Seq<Chunk>>),
}

/// The mathematical form of a value.
pub open spec fn tree(v: JsonPP) -> Tree
    decreases v,
{
    match v {
        JsonPP::Undefined => Tree::Undefined,
        JsonPP::Null => Tree::Null,
        JsonPP::Bool(b) => Tree::Bool(b),
        JsonPP::String(s) => Tree::Str(s@),
        JsonPP::Int(i) => Tree::Int(i),
        JsonPP::Float(f) => Tree::Float(f),
        JsonPP::Array(xs) => Tree::Array(trees(xs@)),
        JsonPP::Object(ms) => Tree::Object(members(ms@)),
        JsonPP::Identifier(s) => Tree::Identifier(s@),
        JsonPP::Definition(d) => Tree::Definition(texts(d.vars@), Box::new(tree(*d.template))),
        JsonPP::Dynamic(d) => Tree::Dynamic(trees(d.args@), path_view(d.path@), paths(d.dependencies@)),
    }
}

/// The mathematical forms of a sequence of values.
pub open spec fn trees(s: Seq<JsonPP>) -> Seq<Tree>
    decreases s,
{
    if s.len() == 0 {
        Seq::empty()
    } else {
        trees(s.drop_last()).push(tree(s.last()))
    }
}

/// The mathematical forms of the members of an object.
pub open spec fn members(s: Seq<(Vec<char>, JsonPP)>) -> Seq<(Seq<char>, Tree)>
    decreases s,
{
    if s.len() == 0 {
        Seq::empty()
    } else {
        members(s.drop_last()).push((s.last().0@, tree(s.last().1)))
    }
}

/// The characters of each text.
pub open spec fn texts(s: Seq<Vec<char>>) -> Seq<Seq<char>> {
    s.map_values(|t: Vec<char>| t@)
}

/// The mathematical form of each path.
pub open spec fn paths(s: Seq<Vec<PathChunk>>) -> Seq<Seq<Chunk>> {
    s.map_values(|p: Vec<PathChunk>| path_view(p@))
}

impl View for JsonPP {
    type V = Tree;

    open spec fn view(&self) -> Tree {
        tree(*self)
    }
}

pub broadcast proof fn lemma_trees(s: Seq<JsonPP>)
    ensures
        #[trigger] trees(s).len() == s.len(),
        forall|i: int| 0 <= i < s.len() ==> #[trigger] trees(s)[i] == tree(s[i]),
    decreases s.len(),
{
    if s.len() > 0 {
        lemma_trees(s.drop_last());
    }
}

pub broadcast proof fn lemma_members(s: Seq<(Vec<char>, JsonPP)>)
    ensures
        #[trigger] members(s).len() == s.len(),
        forall|i: int|
            0 <= i < s.len() ==> #[trigger] members(s)[i] == (s[i].0@, tree(s[i].1)),
    decreases s.len(),
{
    if s.len() > 0 {
        lemma_members(s.drop_last());
    }
}

/// The tree holds at least one dynamic.
pub open spec fn has_dynamics(t: Tree) -> bool
    decreases t,
{
    match t {
        Tree::Dynamic(..) => true,
        Tree::Array(xs) => any_has_dynamics(xs),
        Tree::Object(ms) => any_member_has_dynamics(ms),
        _ => false,
    }
}

/// Some element of the sequence holds a dynamic.
pub open spec fn any_has_dynamics(s: Seq<Tree>) -> bool
    decreases s,
{
    if s.len() == 0 {
        false
    } else {
        any_has_dynamics(s.drop_last()) || has_dynamics(s.last())
    }
}

/// Some member value of the sequence holds a dynamic.
pub open spec fn any_member_has_dynamics(s: Seq<(Seq<char>, Tree)>) -> bool
    decreases s,
{
    if s.len() == 0 {
        false
    } else {
        any_member_has_dynamics(s.drop_last()) || has_dynamics(s.last().1)
    }
}

/// `any_has_dynamics` holds when some element holds a dynamic.
pub proof fn lemma_any_has_dynamics(s: Seq<Tree>)
    ensures
        any_has_dynamics(s) <==> exists|i: int| 0 <= i < s.len() && #[trigger] has_dynamics(s[i]),
    decreases s.len(),
{
    if s.len() > 0 {
        lemma_any_has_dynamics(s.drop_last());
        if any_has_dynamics(s.drop_last()) {
            let i = choose|i: int| 0 <= i < s.drop_last().len() && #[trigger] has_dynamics(s.drop_last()[i]);
            assert(has_dynamics(s[i]));
        }
        if has_dynamics(s.last()) {
            assert(has_dynamics(s[s.len() - 1]));
        }
        if exists|i: int| 0 <= i < s.len() && #[trigger] has_dynamics(s[i]) {
            let i = choose|i: int| 0 <= i < s.len() && #[trigger] has_dynamics(s[i]);
            if i < s.len() - 1 {
                assert(has_dynamics(s.drop_last()[i]));
            }
        }
    }
}

/// `any_member_has_dynamics` holds when some member value holds a dynamic.
pub proof fn lemma_any_member_has_dynamics(s: Seq<(Seq<char>, Tree)>)
    ensures
        any_member_has_dynamics(s) <==> exists|i: int|
            0 <= i < s.len() && #[trigger] has_dynamics(s[i].1),
    decreases s.len(),
{
    if s.len() > 0 {
        lemma_any_member_has_dynamics(s.drop_last());
        if any_member_has_dynamics(s.drop_last()) {
            let i = choose|i: int| 0 <= i < s.drop_last().len() && #[trigger] has_dynamics(s.drop_last()[i].1);
            assert(has_dynamics(s[i].1));
        }
        if has_dynamics(s.last().1) {
            assert(has_dynamics(s[s.len() - 1].1));
        }
        if exists|i: int| 0 <= i < s.len() && #[trigger] has_dynamics(s[i].1) {
            let i = choose|i: int| 0 <= i < s.len() && #[trigger] has_dynamics(s[i].1);
            if i < s.len() - 1 {
                assert(has_dynamics(s.drop_last()[i].1));
            }
        }
    }
}

/// Whether `target` still holds a dynamic anywhere inside it.
#[verifier::loop_isolation(false)]
pub fn contains_dynamics(target: &JsonPP) -> (r: bool)
    ensures
        r == has_dynamics(target@),
    decreases target,
{
    broadcast use lemma_trees, lemma_members;

    match target {
        JsonPP::Dynamic(_) => true,
        JsonPP::Array(xs) => {
            proof {
                lemma_any_has_dynamics(trees(xs@));
            }
            let mut i: usize = 0;
            while i < xs.len()
                invariant
                    i <= xs.len(),
                    forall|j: int| 0 <= j < i ==> !has_dynamics(#[trigger] trees(xs@)[j]),
                decreases xs.len() - i,
            {
                proof {
                    assert(decreases_to!(xs => xs[i as int]));
                }
                if contains_dynamics(&xs[i]) {
                    assert(has_dynamics(trees(xs@)[i as int]));
                    return true;
                }
                i = i + 1;
            }
            false
        },
        JsonPP::Object(ms) => {
            proof {
                lemma_any_member_has_dynamics(members(ms@));
            }
            let mut i: usize = 0;
            while i < ms.len()
                invariant
                    i <= ms.len(),
                    forall|j: int| 0 <= j < i ==> !has_dynamics(#[trigger] members(ms@)[j].1),
                decreases ms.len() - i,
            {
                proof {
                    assert(decreases_to!(ms => ms[i as int]));
                }
                if contains_dynamics(&ms[i].1) {
                    assert(has_dynamics(members(ms@)[i as int].1));
                    return true;
                }
                i = i + 1;
            }
            false
        },
        _ => false,
    }
}

/// Deep copy of the paths.
pub fn copy_paths(ps: &Vec<Vec<PathChunk>>) -> (r: Vec<Vec<PathChunk>>)
    ensures
        paths(r@) == paths(ps@),
{
    let mut r: Vec<Vec<PathChunk>> = Vec::new();
    let mut i: usize = 0;
    while i < ps.len()
        invariant
            i <= ps@.len(),
            r@.len() == i,
            forall|j: int| 0 <= j < i ==> path_view(#[trigger] r@[j]@) == path_view(ps@[j]@),
        decreases ps@.len() - i,
    {
        r.push(copy_path(ps[i].as_slice()));
        i = i + 1;
    }
    assert(paths(r@) =~= paths(ps@));
    r
}

/// Deep copy of the texts.
pub fn copy_texts(ts: &Vec<Vec<char>>) -> (r: Vec<Vec<char>>)
    ensures
        texts(r@) == texts(ts@),
{
    let mut r: Vec<Vec<char>> = Vec::new();
    let mut i: usize = 0;
    while i < ts.len()
        invariant
            i <= ts@.len(),
            r@.len() == i,
            forall|j: int| 0 <= j < i ==> (#[trigger] r@[j])@ == ts@[j]@,
        decreases ts@.len() - i,
    {
        r.push(copy_text(&ts[i]));
        i = i + 1;
    }
    assert(texts(r@) =~= texts(ts@));
    r
}

/// Deep copy of a sequence of values.
pub fn copy_values(xs: &Vec<JsonPP>) -> (r: Vec<JsonPP>)
    ensures
        trees(r@) == trees(xs@),
    decreases xs, 0nat,
{
    broadcast use lemma_trees;

    let mut r: Vec<JsonPP> = Vec::new();
    let mut i: usize = 0;
    while i < xs.len()
        invariant
            i <= xs@.len(),
            r@.len() == i,
            forall|j: int| 0 <= j < i ==> tree(#[trigger] r@[j]) == tree(xs@[j]),
        decreases xs@.len() - i,
    {
        proof {
            assert(decreases_to!(xs => xs[i as int]));
        }
        r.push(copy_value(&xs[i]));
        i = i + 1;
    }
    assert(trees(r@) =~= trees(xs@));
    r
}

/// Deep copy of the members of an object.
pub fn copy_members(ms: &Vec<(Vec<char>, JsonPP)>) -> (r: Vec<(Vec<char>, JsonPP)>)
    ensures
        members(r@) == members(ms@),
    decreases ms, 0nat,
{
    broadcast use lemma_members;

    let mut r: Vec<(Vec<char>, JsonPP)> = Vec::new();
    let mut i: usize = 0;
    while i < ms.len()
        invariant
            i <= ms@.len(),
            r@.len() == i,
            forall|j: int|
                0 <= j < i ==> (#[trigger] r@[j]).0@ == ms@[j].0@ && tree(r@[j].1) == tree(ms@[j].1),
        decreases ms@.len() - i,
    {
        proof {
            assert(decreases_to!(ms => ms[i as int]));
        }
        let k = copy_text(&ms[i].0);
        let v = copy_value(&ms[i].1);
        r.push((k, v));
        i = i + 1;
    }
    assert(members(r@) =~= members(ms@));
    r
}

/// Deep copy of a value.
pub fn copy_value(v: &JsonPP) -> (r: JsonPP)
    ensures
        r@ == v@,
    decreases v, 1nat,
{
    match v {
        JsonPP::Undefined => JsonPP::Undefined,
        JsonPP::Null => JsonPP::Null,
        JsonPP::Bool(b) => JsonPP::Bool(*b),
        JsonPP::String(s) => JsonPP::String(copy_text(s)),
        JsonPP::Int(i) => JsonPP::Int(*i),
        JsonPP::Float(f) => JsonPP::Float(*f),
        JsonPP::Array(xs) => JsonPP::Array(copy_values(xs)),
        JsonPP::Object(ms) => JsonPP::Object(copy_members(ms)),
        JsonPP::Identifier(s) => JsonPP::Identifier(copy_text(s)),
        JsonPP::Definition(d) => JsonPP::Definition(
            Definition { vars: copy_texts(&d.vars), template: Box::new(copy_value(&d.template)) },
        ),
        JsonPP::Dynamic(d) => JsonPP::Dynamic(
            Dynamic {
                args: copy_values(&d.args),
                path: copy_path(d.path.as_slice()),
                dependencies: copy_paths(&d.dependencies),
            },
        ),
    }
}

/// A float bit pattern of positive or negative zero.
pub open spec fn float_is_zero(f: u64) -> bool {
    f == 0 || f == 0x8000_0000_0000_0000u64
}

/// Truthiness: `null` and `undefined` are false, a boolean is itself, a number is true
/// unless zero, a string, array or object unless empty; every other value is true.
pub open spec fn truthy(t: Tree) -> bool {
    match t {
        Tree::Bool(b) => b,
        Tree::Str(s) => s.len() > 0,
        Tree::Int(i) => i != 0,
        Tree::Float(f) => !float_is_zero(f),
        Tree::Array(xs) => xs.len() > 0,
        Tree::Object(ms) => ms.len() > 0,
        Tree::Null | Tree::Undefined => false,
        _ => true,
    }
}

impl JsonPP {
    /// The truth value of a value (see `truthy`).
    pub fn is_truthy(&self) -> (r: bool)
        ensures
            r == truthy(self@),
    {
        broadcast use lemma_trees, lemma_members;

        match self {
            JsonPP::Null | JsonPP::Undefined => false,
            JsonPP::Bool(val) => *val,
            JsonPP::String(val) => val.len() > 0,
            JsonPP::Int(val) => *val != 0,
            JsonPP::Float(val) => !(*val == 0 || *val == 0x8000_0000_0000_0000u64),
            JsonPP::Array(vec) => {
                assert(trees(vec@).len() == vec@.len());
                vec.len() > 0
            },
            JsonPP::Object(ms) => {
                assert(members(ms@).len() == ms@.len());
                ms.len() > 0
            },
            _ => true,
        }
    }
}

/// `t` is the identifier `name`.
pub open spec fn is_identifier(t: Tree, name: Seq<char>) -> bool {
    t matches Tree::Identifier(s) && s == name
}

/// The operator of the dynamic is the identifier `name`.
pub open spec fn head_is(args: Seq<Tree>, name: Seq<char>) -> bool {
    args.len() > 0 && is_identifier(args[0], name)
}

/// The text is the given word.
pub fn text_is(t: &Vec<char>, word: &str) -> (r: bool)
    ensures
        r == (t@ == word@),
{
    let n = word.unicode_len();
    if t.len() != n {
        return false;
    }
    let mut i: usize = 0;
    while i < n
        invariant
            n == word@.len(),
            t@.len() == n,
            i <= n,
            forall|j: int| 0 <= j < i ==> t@[j] == word@[j],
        decreases n - i,
    {
        if t[i] != word.get_char(i) {
            return false;
        }
        i = i + 1;
    }
    assert(t@ =~= word@);
    true
}

impl Dynamic {
    /// The operator is the identifier `def`.
    pub fn is_def(&self) -> (r: bool)
        ensures
            r == head_is(trees(self.args@), "def"@),
    {
        broadcast use lemma_trees;

        self.args.len() > 0 && match &self.args[0] {
            JsonPP::Identifier(name) => text_is(name, "def"),
            _ => false,
        }
    }

    /// The operator is the identifier `ref`.
    pub fn is_ref(&self) -> (r: bool)
        ensures
            r == head_is(trees(self.args@), "ref"@),
    {
        broadcast use lemma_trees;

        self.args.len() > 0 && match &self.args[0] {
            JsonPP::Identifier(name) => text_is(name, "ref"),
            _ => false,
        }
    }
}

/// The characters of a string literal, as a text.
pub fn text_of(word: &str) -> (r: Vec<char>)
    ensures
        r@ == word@,
{
    let n = word.unicode_len();
    let mut r: Vec<char> = Vec::new();
    let mut i: usize = 0;
    while i < n
        invariant
            n == word@.len(),
            i <= n,
            r@ == word@.take(i as int),
        decreases n - i,
    {
        r.push(word.get_char(i));
        i = i + 1;
        assert(r@ =~= word@.take(i as int));
    }
    assert(word@.take(i as int) =~= word@);
    r
}

/// No two members share a key.
pub open spec fn keys_unique(ms: Seq<(Seq<char>, Tree)>) -> bool {
    forall|i: int, j: int| 0 <= i < j < ms.len() ==> ms[i].0 != ms[j].0
}

/// Well-formedness of a tree: every object, at any depth, has unique keys.
pub open spec fn wf_tree(t: Tree) -> bool
    decreases t,
{
    match t {
        Tree::Array(xs) => all_wf(xs),
        Tree::Object(ms) => keys_unique(ms) && members_wf(ms),
        Tree::Dynamic(args, _, _) => all_wf(args),
        Tree::Definition(_, body) => wf_tree(*body),
        _ => true,
    }
}

/// Every element is well-formed.
pub open spec fn all_wf(xs: Seq<Tree>) -> bool
    decreases xs,
{
    xs.len() == 0 || (all_wf(xs.drop_last()) && wf_tree(xs.last()))
}

/// Every member value is well-formed.
pub open spec fn members_wf(ms: Seq<(Seq<char>, Tree)>) -> bool
    decreases ms,
{
    ms.len() == 0 || (members_wf(ms.drop_last()) && wf_tree(ms.last().1))
}

/// `all_wf` in the form of a quantifier.
pub proof fn lemma_all_wf(xs: Seq<Tree>)
    ensures
        all_wf(xs) <==> forall|i: int| 0 <= i < xs.len() ==> #[trigger] wf_tree(xs[i]),
    decreases xs.len(),
{
    if xs.len() > 0 {
        lemma_all_wf(xs.drop_last());
        assert(forall|i: int| 0 <= i < xs.len() - 1 ==> xs.drop_last()[i] == xs[i]);
        if forall|i: int| 0 <= i < xs.len() ==> #[trigger] wf_tree(xs[i]) {
            assert(wf_tree(xs[xs.len() - 1]));
            assert forall|i: int| 0 <= i < xs.drop_last().len() implies #[trigger] wf_tree(
                xs.drop_last()[i],
            ) by {
                assert(wf_tree(xs[i]));
            }
        }
        if all_wf(xs) {
            assert forall|i: int| 0 <= i < xs.len() implies #[trigger] wf_tree(xs[i]) by {
                if i < xs.len() - 1 {
                    assert(wf_tree(xs.drop_last()[i]));
                }
            }
        }
    }
}

/// `members_wf` in the form of a quantifier.
pub proof fn lemma_members_wf(ms: Seq<(Seq<char>, Tree)>)
    ensures
        members_wf(ms) <==> forall|i: int| 0 <= i < ms.len() ==> #[trigger] wf_tree(ms[i].1),
    decreases ms.len(),
{
    if ms.len() > 0 {
        lemma_members_wf(ms.drop_last());
        assert(forall|i: int| 0 <= i < ms.len() - 1 ==> ms.drop_last()[i] == ms[i]);
        if forall|i: int| 0 <= i < ms.len() ==> #[trigger] wf_tree(ms[i].1) {
            assert(wf_tree(ms[ms.len() - 1].1));
            assert forall|i: int| 0 <= i < ms.drop_last().len() implies #[trigger] wf_tree(
                ms.drop_last()[i].1,
            ) by {
                assert(wf_tree(ms[i].1));
            }
        }
        if members_wf(ms) {
            assert forall|i: int| 0 <= i < ms.len() implies #[trigger] wf_tree(ms[i].1) by {
                if i < ms.len() - 1 {
                    assert(wf_tree(ms.drop_last()[i].1));
                }
            }
        }
    }
}

} // verus!
