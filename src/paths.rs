use vstd::prelude::*;

verus! {

/// One step of a position in a JSON++ tree.
#[derive(Debug, PartialEq, Eq)]
pub enum PathChunk {
    /// One step toward the root (only in relative paths).
    Parent,
    /// Descend into an object member.
    Key(Vec<char>),
    /// Descend into an array element.
    Index(usize),
    /// Descend into an operand of a dynamic.
    Argument(usize),
}

/// The mathematical form of a `PathChunk`.
pub enum Chunk {
    Parent,
    Key(Seq<char>),
    Index(nat),
    Argument(nat),
}

impl View for PathChunk {
    type V = Chunk;

    open spec fn view(&self) -> Chunk {
        match self {
            PathChunk::Parent => Chunk::Parent,
            PathChunk::Key(k) => Chunk::Key(k@),
            PathChunk::Index(i) => Chunk::Index(*i as nat),
            PathChunk::Argument(i) => Chunk::Argument(*i as nat),
        }
    }
}

/// The mathematical form of a path.
pub open spec fn path_view(p: Seq<PathChunk>) -> Seq<Chunk> {
    p.map_values(|c: PathChunk| c@)
}

/// Two texts hold the same characters.
pub fn text_eq(a: &Vec<char>, b: &Vec<char>) -> (r: bool)
    ensures
        r == (a@ == b@),
{
    if a.len() != b.len() {
        return false;
    }
    let mut i: usize = 0;
    while i < a.len()
        invariant
            a.len() == b.len(),
            i <= a.len(),
            forall|j: int| 0 <= j < i ==> a@[j] == b@[j],
        decreases a.len() - i,
    {
        if a[i] != b[i] {
            return false;
        }
        i = i + 1;
    }
    assert(a@ =~= b@);
    true
}

/// A fresh text with the same characters.
pub fn copy_text(a: &Vec<char>) -> (r: Vec<char>)
    ensures
        r@ == a@,
{
    let mut r: Vec<char> = Vec::new();
    let mut i: usize = 0;
    while i < a.len()
        invariant
            i <= a.len(),
            r@ == a@.take(i as int),
        decreases a.len() - i,
    {
        r.push(a[i]);
        i = i + 1;
        assert(r@ =~= a@.take(i as int));
    }
    assert(a@.take(i as int) =~= a@);
    r
}

/// A fresh chunk with the same view.
pub fn copy_chunk(c: &PathChunk) -> (r: PathChunk)
    ensures
        r@ == c@,
{
    match c {
        PathChunk::Parent => PathChunk::Parent,
        PathChunk::Key(k) => PathChunk::Key(copy_text(k)),
        PathChunk::Index(i) => PathChunk::Index(*i),
        PathChunk::Argument(i) => PathChunk::Argument(*i),
    }
}

/// Two chunks are the same step.
pub fn chunk_eq(a: &PathChunk, b: &PathChunk) -> (r: bool)
    ensures
        r == (a@ == b@),
{
    match (a, b) {
        (PathChunk::Parent, PathChunk::Parent) => true,
        (PathChunk::Key(x), PathChunk::Key(y)) => text_eq(x, y),
        (PathChunk::Index(x), PathChunk::Index(y)) => *x == *y,
        (PathChunk::Argument(x), PathChunk::Argument(y)) => *x == *y,
        _ => false,
    }
}

/// A fresh path with the same view.
pub fn copy_path(p: &[PathChunk]) -> (r: Vec<PathChunk>)
    ensures
        path_view(r@) == path_view(p@),
{
    let mut r: Vec<PathChunk> = Vec::new();
    let mut i: usize = 0;
    while i < p.len()
        invariant
            i <= p@.len(),
            r@.len() == i,
            forall|j: int| 0 <= j < i ==> r@[j]@ == p@[j]@,
        decreases p@.len() - i,
    {
        r.push(copy_chunk(&p[i]));
        i = i + 1;
    }
    assert(path_view(r@) =~= path_view(p@));
    r
}

/// Two paths name the same position.
pub fn path_eq(a: &[PathChunk], b: &[PathChunk]) -> (r: bool)
    ensures
        r == (path_view(a@) == path_view(b@)),
{
    if a.len() != b.len() {
        assert(path_view(a@).len() != path_view(b@).len());
        return false;
    }
    let mut i: usize = 0;
    while i < a.len()
        invariant
            a@.len() == b@.len(),
            i <= a@.len(),
            forall|j: int| 0 <= j < i ==> a@[j]@ == b@[j]@,
        decreases a@.len() - i,
    {
        if !chunk_eq(&a[i], &b[i]) {
            assert(path_view(a@)[i as int] != path_view(b@)[i as int]);
            return false;
        }
        i = i + 1;
    }
    assert(path_view(a@) =~= path_view(b@));
    true
}

/// `prefix` is an initial segment of `p`.
pub open spec fn is_prefix(prefix: Seq<Chunk>, p: Seq<Chunk>) -> bool {
    prefix.len() <= p.len() && p.take(prefix.len() as int) == prefix
}

/// Whether `p` starts with `prefix`.
pub fn starts_with_path(p: &[PathChunk], prefix: &[PathChunk]) -> (r: bool)
    ensures
        r == is_prefix(path_view(prefix@), path_view(p@)),
{
    if prefix.len() > p.len() {
        return false;
    }
    let mut i: usize = 0;
    while i < prefix.len()
        invariant
            prefix@.len() <= p@.len(),
            i <= prefix@.len(),
            forall|j: int| 0 <= j < i ==> p@[j]@ == prefix@[j]@,
        decreases prefix@.len() - i,
    {
        if !chunk_eq(&p[i], &prefix[i]) {
            assert(path_view(p@).take(prefix@.len() as int)[i as int] != path_view(prefix@)[i as int]);
            return false;
        }
        i = i + 1;
    }
    assert(path_view(p@).take(prefix@.len() as int) =~= path_view(prefix@));
    true
}

/// Applies the chunks of a relative path after its leading `Parent` to `base`:
/// `Parent` drops the last step (if any), any other chunk is appended.
pub open spec fn walk(base: Seq<Chunk>, steps: Seq<Chunk>) -> Seq<Chunk>
    decreases steps.len(),
{
    if steps.len() == 0 {
        base
    } else {
        let prev = walk(base, steps.drop_last());
        if steps.last() is Parent {
            if prev.len() == 0 {
                prev
            } else {
                prev.drop_last()
            }
        } else {
            prev.push(steps.last())
        }
    }
}

/// The absolute position that `target` names when seen from `self_path`: a target that
/// starts with `Parent` is relative to `self_path` itself, any other is absolute.
pub open spec fn absolute(self_path: Seq<Chunk>, target: Seq<Chunk>) -> Seq<Chunk> {
    if target.len() > 0 && target[0] is Parent {
        walk(self_path, target.drop_first())
    } else {
        target
    }
}

/// Resolves `target_path` against `self_path` (see `absolute`).
pub fn make_absolute(self_path: &[PathChunk], target_path: &[PathChunk]) -> (r: Vec<PathChunk>)
    ensures
        path_view(r@) == absolute(path_view(self_path@), path_view(target_path@)),
{
    if target_path.len() > 0 && matches!(target_path[0], PathChunk::Parent) {
        let ghost steps = path_view(target_path@).drop_first();
        let mut out = copy_path(self_path);
        let mut i: usize = 1;
        while i < target_path.len()
            invariant
                1 <= i <= target_path@.len(),
                steps == path_view(target_path@).drop_first(),
                path_view(out@) == walk(path_view(self_path@), steps.take(i - 1)),
            decreases target_path@.len() - i,
        {
            let ghost before = path_view(out@);
            assert(steps.take(i as int).drop_last() =~= steps.take(i - 1));
            if matches!(target_path[i], PathChunk::Parent) {
                if out.len() > 0 {
                    out.pop();
                    assert(path_view(out@) =~= before.drop_last());
                }
            } else {
                out.push(copy_chunk(&target_path[i]));
                assert(path_view(out@) =~= before.push(target_path@[i as int]@));
            }
            i = i + 1;
        }
        assert(steps.take(i - 1) =~= steps);
        out
    } else {
        copy_path(target_path)
    }
}

/// The value of a run of ASCII digits.
pub open spec fn digits_value(s: Seq<char>) -> nat
    decreases s.len(),
{
    if s.len() == 0 {
        0
    } else {
        digits_value(s.drop_last()) * 10 + ((s.last() as nat) - ('0' as nat)) as nat
    }
}

/// Every character is an ASCII digit.
pub open spec fn all_digits(s: Seq<char>) -> bool {
    forall|i: int| 0 <= i < s.len() ==> '0' <= #[trigger] s[i] <= '9'
}

/// What `usize::from_str` accepts: an optional `+`, then one or more ASCII digits whose
/// value fits in `usize`.
pub open spec fn parse_index(s: Seq<char>) -> Option<nat> {
    let d = if s.len() > 0 && s[0] == '+' { s.drop_first() } else { s };
    if d.len() > 0 && all_digits(d) && digits_value(d) <= usize::MAX {
        Some(digits_value(d))
    } else {
        None
    }
}

/// Reads a non-negative index in the form `usize::from_str` accepts.
pub fn parse_usize(s: &[char]) -> (r: Option<usize>)
    ensures
        r matches Some(n) ==> parse_index(s@) == Some(n as nat),
        r is None ==> parse_index(s@) is None,
{
    let start: usize = if s.len() > 0 && s[0] == '+' { 1 } else { 0 };
    let ghost d = if s@.len() > 0 && s@[0] == '+' { s@.drop_first() } else { s@ };
    assert(d =~= s@.subrange(start as int, s@.len() as int));
    if start >= s.len() {
        return None;
    }
    let mut value: usize = 0;
    let mut i: usize = start;
    while i < s.len()
        invariant
            start <= i <= s@.len(),
            d == s@.subrange(start as int, s@.len() as int),
            d == (if s@.len() > 0 && s@[0] == '+' { s@.drop_first() } else { s@ }),
            all_digits(s@.subrange(start as int, i as int)),
            value as nat == digits_value(s@.subrange(start as int, i as int)),
        decreases s@.len() - i,
    {
        let c = s[i];
        if c < '0' || c > '9' {
            assert(d[i - start] == c);
            assert(!all_digits(d));
            return None;
        }
        let digit: usize = (c as u32 - '0' as u32) as usize;
        assert(s@.subrange(start as int, i + 1).drop_last() =~= s@.subrange(start as int, i as int));
        if value > (usize::MAX - digit) / 10 {
            proof {
                if all_digits(d) {
                    assert(d.take(i + 1 - start) =~= s@.subrange(start as int, i + 1));
                    lemma_digits_monotone(d, (i + 1 - start) as int);
                }
            }
            return None;
        }
        value = value * 10 + digit;
        i = i + 1;
        assert(all_digits(s@.subrange(start as int, i as int)));
    }
    assert(s@.subrange(start as int, i as int) =~= d);
    Some(value)
}

/// A run of digits is worth at least as much as any prefix of it.
pub proof fn lemma_digits_monotone(d: Seq<char>, k: int)
    requires
        0 <= k <= d.len(),
        all_digits(d),
    ensures
        digits_value(d.take(k)) <= digits_value(d),
    decreases d.len(),
{
    if k < d.len() {
        assert(d.drop_last().take(k) =~= d.take(k));
        lemma_digits_monotone(d.drop_last(), k);
    } else {
        assert(d.take(k) =~= d);
    }
}

/// The pieces of `s` between dots (`"a..b"` has the pieces `a`, empty, `b`).
pub open spec fn split_dots(s: Seq<char>) -> Seq<Seq<char>>
    decreases s.len(),
{
    if s.len() == 0 {
        seq![Seq::empty()]
    } else {
        let prev = split_dots(s.drop_last());
        if s.last() == '.' {
            prev.push(Seq::empty())
        } else {
            prev.update(prev.len() - 1, prev.last().push(s.last()))
        }
    }
}

/// The chunk that one piece of a reference string stands for: empty is `Parent`,
/// `[n]` an index, `(n)` an operand, anything else a key.
pub open spec fn piece_chunk(piece: Seq<char>) -> Option<Chunk> {
    if piece.len() == 0 {
        Some(Chunk::Parent)
    } else if piece[0] == '[' && piece.last() == ']' {
        match parse_index(piece.subrange(1, piece.len() - 1)) {
            Some(n) => Some(Chunk::Index(n)),
            None => None,
        }
    } else if piece[0] == '(' && piece.last() == ')' {
        match parse_index(piece.subrange(1, piece.len() - 1)) {
            Some(n) => Some(Chunk::Argument(n)),
            None => None,
        }
    } else {
        Some(Chunk::Key(piece))
    }
}

/// The chunks of all pieces, if every piece reads as one.
pub open spec fn pieces_chunks(pieces: Seq<Seq<char>>) -> Option<Seq<Chunk>>
    decreases pieces.len(),
{
    if pieces.len() == 0 {
        Some(Seq::empty())
    } else {
        match (pieces_chunks(pieces.drop_last()), piece_chunk(pieces.last())) {
            (Some(cs), Some(c)) => Some(cs.push(c)),
            _ => None,
        }
    }
}

/// The path that a reference string names.
pub open spec fn ref_path(s: Seq<char>) -> Option<Seq<Chunk>> {
    pieces_chunks(split_dots(s))
}

/// Reads one piece of a reference string.
fn piece_to_chunk(piece: &Vec<char>) -> (r: Option<PathChunk>)
    ensures
        r matches Some(c) ==> piece_chunk(piece@) == Some(c@),
        r is None ==> piece_chunk(piece@) is None,
{
    let n = piece.len();
    if n == 0 {
        return Some(PathChunk::Parent);
    }
    if piece[0] == '[' && piece[n - 1] == ']' {
        match parse_usize(&piece.as_slice()[1..n - 1]) {
            Some(i) => Some(PathChunk::Index(i)),
            None => None,
        }
    } else if piece[0] == '(' && piece[n - 1] == ')' {
        match parse_usize(&piece.as_slice()[1..n - 1]) {
            Some(i) => Some(PathChunk::Argument(i)),
            None => None,
        }
    } else {
        Some(PathChunk::Key(copy_text(piece)))
    }
}

/// Reads a reference string (`.a.[0]`, `x.(1)`) into a path; `None` where a bracketed
/// piece does not hold an index.
pub fn ref_chain(path: &Vec<char>) -> (r: Option<Vec<PathChunk>>)
    ensures
        r matches Some(p) ==> ref_path(path@) == Some(path_view(p@)),
        r is None ==> ref_path(path@) is None,
{
    let mut out: Vec<PathChunk> = Vec::new();
    let mut current: Vec<char> = Vec::new();
    let ghost mut done: Seq<Seq<char>> = Seq::empty();
    let mut i: usize = 0;
    while i < path.len()
        invariant
            i <= path@.len(),
            done.push(current@) == split_dots(path@.take(i as int)),
            pieces_chunks(done) == Some(path_view(out@)),
        decreases path@.len() - i,
    {
        let c = path[i];
        assert(path@.take(i + 1).drop_last() =~= path@.take(i as int));
        if c == '.' {
            match piece_to_chunk(&current) {
                Some(chunk) => {
                    proof {
                        assert(done.push(current@).drop_last() =~= done);
                    }
                    out.push(chunk);
                    proof {
                        done = done.push(current@);
                        assert(path_view(out@) =~= path_view(out@.drop_last()).push(chunk@));
                    }
                    current = Vec::new();
                    assert(done.push(current@) =~= split_dots(path@.take(i + 1)));
                },
                None => {
                    proof {
                        lemma_split_prefix(path@, i as int);
                        let m = done.push(current@).len() as int;
                        assert(done.push(current@).drop_last() =~= done);
                        lemma_pieces_none_prefix(split_dots(path@), m);
                    }
                    return None;
                },
            }
        } else {
            current.push(c);
            assert(done.push(current@) =~= split_dots(path@.take(i + 1)));
        }
        i = i + 1;
    }
    assert(path@.take(i as int) =~= path@);
    match piece_to_chunk(&current) {
        Some(chunk) => {
            assert(done.push(current@).drop_last() =~= done);
            out.push(chunk);
            assert(path_view(out@) =~= path_view(out@.drop_last()).push(chunk@));
            Some(out)
        },
        None => None,
    }
}

proof fn lemma_split_prefix(s: Seq<char>, i: int)
    requires
        0 <= i < s.len(),
        s[i] == '.',
    ensures
        split_dots(s).len() > split_dots(s.take(i)).len(),
        split_dots(s).take(split_dots(s.take(i)).len() as int) == split_dots(s.take(i)),
    decreases s.len(),
{
    let m = split_dots(s.take(i)).len() as int;
    if i == s.len() - 1 {
        assert(s.drop_last() =~= s.take(i));
        assert(split_dots(s).take(m) =~= split_dots(s.take(i)));
    } else {
        assert(s.drop_last().take(i) =~= s.take(i));
        lemma_split_prefix(s.drop_last(), i);
        assert(split_dots(s).take(m) =~= split_dots(s.drop_last()).take(m));
    }
}

proof fn lemma_pieces_none_prefix(p: Seq<Seq<char>>, k: int)
    requires
        0 <= k <= p.len(),
        pieces_chunks(p.take(k)) is None,
    ensures
        pieces_chunks(p) is None,
    decreases p.len(),
{
    if k < p.len() {
        assert(p.drop_last().take(k) =~= p.take(k));
        lemma_pieces_none_prefix(p.drop_last(), k);
    } else {
        assert(p.take(k) =~= p);
    }
}

} // verus!
