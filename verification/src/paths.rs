//! Paths as sequences of components, compared, ordered and matched by prefix the
//! way `std::path::Path` does on Unix, and a sorted set of paths in that order.

use vstd::prelude::*;
use crate::text::{chars_eq, chars_of, lemma_seq_lt_irreflexive, lemma_seq_lt_total, lemma_seq_lt_transitive, lex_less, seq_lt};

verus! {

broadcast use vstd::string::group_string_axioms;

// ---------------------------------------------------------------------------
// Components
// ---------------------------------------------------------------------------

/// The pieces of a text between its `/` separators, in order; empty pieces kept.
pub open spec fn split_slash(s: Seq<char>) -> Seq<Seq<char>>
    decreases s.len(),
{
    if s.len() == 0 {
        seq![Seq::<char>::empty()]
    } else {
        let p = split_slash(s.drop_last());
        if s.last() == '/' {
            p.push(Seq::<char>::empty())
        } else {
            p.update(p.len() - 1, p.last().push(s.last()))
        }
    }
}

/// Components are written with a leading tag so that they order by kind first,
/// as `std::path::Component` does: the root, `.`, `..`, then named components by
/// their text.
pub open spec fn root_component() -> Seq<char> {
    seq!['\u{1}']
}

pub open spec fn current_component() -> Seq<char> {
    seq!['\u{2}']
}

pub open spec fn parent_component() -> Seq<char> {
    seq!['\u{3}']
}

pub open spec fn named_component(text: Seq<char>) -> Seq<char> {
    seq!['\u{4}'] + text
}

/// The components that a run of pieces contributes: empty pieces and `.` are
/// dropped, `..` is the parent component, anything else a named one.
pub open spec fn piece_components(pieces: Seq<Seq<char>>) -> Seq<Seq<char>>
    decreases pieces.len(),
{
    if pieces.len() == 0 {
        Seq::empty()
    } else {
        let r = piece_components(pieces.drop_last());
        let x = pieces.last();
        if x.len() == 0 || x == seq!['.'] {
            r
        } else if x == seq!['.', '.'] {
            r.push(parent_component())
        } else {
            r.push(named_component(x))
        }
    }
}

/// The components of a path: the root for a leading `/`, `.` only where a
/// relative path starts with it; repeated and trailing separators and inner `.`
/// pieces vanish.
pub open spec fn path_components(p: Seq<char>) -> Seq<Seq<char>> {
    let pieces = split_slash(p);
    if p.len() > 0 && p[0] == '/' {
        seq![root_component()] + piece_components(pieces)
    } else if pieces.len() > 0 && pieces[0] == seq!['.'] {
        seq![current_component()] + piece_components(pieces.drop_first())
    } else {
        piece_components(pieces)
    }
}

/// Lexicographic order on component sequences, each component ordered by `seq_lt`.
pub open spec fn comps_lt(a: Seq<Seq<char>>, b: Seq<Seq<char>>) -> bool
    decreases a.len(),
{
    if a.len() == 0 {
        b.len() > 0
    } else if b.len() == 0 {
        false
    } else if a[0] != b[0] {
        seq_lt(a[0], b[0])
    } else {
        comps_lt(a.drop_first(), b.drop_first())
    }
}

/// Path `a` sorts before path `b`.
pub open spec fn path_lt(a: Seq<char>, b: Seq<char>) -> bool {
    comps_lt(path_components(a), path_components(b))
}

/// Two spellings of one path.
pub open spec fn same_path(a: Seq<char>, b: Seq<char>) -> bool {
    path_components(a) == path_components(b)
}

/// `path` lies at or below `root`: `root`'s components begin `path`'s.
pub open spec fn path_starts_with(path: Seq<char>, root: Seq<char>) -> bool {
    let p = path_components(path);
    let r = path_components(root);
    r.len() <= p.len() && p.subrange(0, r.len() as int) == r
}

/// Law: paths in strict path order are distinct, so they count their set.
pub proof fn lemma_sorted_paths_count_their_set(s: Seq<Seq<char>>)
    requires
        sorted_paths(s),
    ensures
        s.no_duplicates(),
        s.to_set().len() == s.len(),
{
    assert forall|i: int, j: int| 0 <= i < s.len() && 0 <= j < s.len() && i != j implies s[i] != s[j] by {
        lemma_comps_lt_irreflexive(path_components(s[i]));
    }
    s.unique_seq_to_set();
}

pub proof fn lemma_comps_lt_irreflexive(a: Seq<Seq<char>>)
    ensures
        !comps_lt(a, a),
    decreases a.len(),
{
    if a.len() > 0 {
        lemma_comps_lt_irreflexive(a.drop_first());
    }
}

pub proof fn lemma_comps_lt_transitive(a: Seq<Seq<char>>, b: Seq<Seq<char>>, c: Seq<Seq<char>>)
    requires
        comps_lt(a, b),
        comps_lt(b, c),
    ensures
        comps_lt(a, c),
    decreases a.len(),
{
    if a.len() > 0 && b.len() > 0 && c.len() > 0 {
        if a[0] == b[0] && b[0] == c[0] {
            lemma_comps_lt_transitive(a.drop_first(), b.drop_first(), c.drop_first());
        } else if a[0] != b[0] && b[0] != c[0] {
            lemma_seq_lt_transitive(a[0], b[0], c[0]);
            if a[0] == c[0] {
                lemma_seq_lt_irreflexive(a[0]);
            }
        }
    }
}

pub proof fn lemma_comps_lt_total(a: Seq<Seq<char>>, b: Seq<Seq<char>>)
    ensures
        a == b || comps_lt(a, b) || comps_lt(b, a),
    decreases a.len(),
{
    if a.len() > 0 && b.len() > 0 {
        if a[0] == b[0] {
            lemma_comps_lt_total(a.drop_first(), b.drop_first());
            if a.drop_first() == b.drop_first() {
                assert(a =~= seq![a[0]] + a.drop_first());
                assert(b =~= seq![b[0]] + b.drop_first());
            }
        } else {
            lemma_seq_lt_total(a[0], b[0]);
        }
    } else if a.len() == 0 && b.len() == 0 {
        assert(a =~= b);
    }
}

/// Views of a list of component vectors.
pub open spec fn comps_view(v: Seq<Vec<char>>) -> Seq<Seq<char>> {
    Seq::new(v.len(), |i: int| v[i]@)
}

fn split_pieces(s: &[char]) -> (r: Vec<Vec<char>>)
    ensures
        comps_view(r@) == split_slash(s@),
{
    let mut out: Vec<Vec<char>> = Vec::new();
    let mut cur: Vec<char> = Vec::new();
    let mut i: usize = 0;
    proof {
        assert(s@.take(0) =~= Seq::<char>::empty());
        assert(comps_view(out@).push(cur@) =~= split_slash(s@.take(0)));
    }
    while i < s.len()
        invariant
            i <= s@.len(),
            comps_view(out@).push(cur@) == split_slash(s@.take(i as int)),
        decreases s@.len() - i,
    {
        let ghost before = comps_view(out@).push(cur@);
        proof {
            assert(s@.take(i + 1).drop_last() =~= s@.take(i as int));
            assert(s@.take(i + 1).last() == s@[i as int]);
        }
        if s[i] == '/' {
            out.push(cur);
            cur = Vec::new();
            proof {
                assert(comps_view(out@).push(cur@) =~= before.push(Seq::<char>::empty()));
            }
        } else {
            cur.push(s[i]);
            proof {
                assert(comps_view(out@).push(cur@) =~= before.update(
                    before.len() - 1,
                    before.last().push(s@[i as int]),
                ));
            }
        }
        i = i + 1;
    }
    out.push(cur);
    proof {
        assert(s@.take(s@.len() as int) =~= s@);
        assert(comps_view(out@) =~= split_slash(s@));
    }
    out
}

fn is_dot(x: &Vec<char>) -> (r: bool)
    ensures
        r == (x@ == seq!['.']),
{
    if x.len() == 1 && x[0] == '.' {
        assert(x@ =~= seq!['.']);
        true
    } else {
        false
    }
}

fn is_dot_dot(x: &Vec<char>) -> (r: bool)
    ensures
        r == (x@ == seq!['.', '.']),
{
    if x.len() == 2 && x[0] == '.' && x[1] == '.' {
        assert(x@ =~= seq!['.', '.']);
        true
    } else {
        false
    }
}

/// Appends the components of `pieces[start..]` to `out`.
fn push_piece_components(pieces: &Vec<Vec<char>>, start: usize, out: &mut Vec<Vec<char>>)
    requires
        start <= pieces@.len(),
    ensures
        comps_view(final(out)@) == comps_view(old(out)@) + piece_components(
            comps_view(pieces@).subrange(start as int, pieces@.len() as int),
        ),
{
    let ghost pv = comps_view(pieces@);
    let ghost base = comps_view(out@);
    let mut i: usize = start;
    proof {
        assert(pv.subrange(start as int, start as int) =~= Seq::<Seq<char>>::empty());
        assert(comps_view(out@) =~= base + piece_components(pv.subrange(start as int, i as int)));
    }
    while i < pieces.len()
        invariant
            start <= i <= pieces@.len(),
            pv == comps_view(pieces@),
            comps_view(out@) == base + piece_components(pv.subrange(start as int, i as int)),
        decreases pieces@.len() - i,
    {
        let ghost before = comps_view(out@);
        proof {
            assert(pv.subrange(start as int, i + 1).drop_last() =~= pv.subrange(start as int, i as int));
            assert(pv.subrange(start as int, i + 1).last() == pieces@[i as int]@);
        }
        let x = &pieces[i];
        if x.len() == 0 || is_dot(x) {
        } else if is_dot_dot(x) {
            let mut c: Vec<char> = Vec::new();
            c.push('\u{3}');
            proof {
                assert(c@ =~= parent_component());
            }
            out.push(c);
            proof {
                assert(comps_view(out@) =~= before.push(parent_component()));
            }
        } else {
            let mut c: Vec<char> = Vec::new();
            c.push('\u{4}');
            let mut k: usize = 0;
            while k < x.len()
                invariant
                    k <= x@.len(),
                    c@ == seq!['\u{4}'] + x@.take(k as int),
                decreases x@.len() - k,
            {
                c.push(x[k]);
                proof {
                    assert(x@.take(k + 1) =~= x@.take(k as int).push(x@[k as int]));
                }
                k = k + 1;
            }
            proof {
                assert(x@.take(x@.len() as int) =~= x@);
                assert(c@ =~= named_component(x@));
            }
            out.push(c);
            proof {
                assert(comps_view(out@) =~= before.push(named_component(x@)));
            }
        }
        i = i + 1;
    }
}

/// The components of `p`.
pub fn components_of(p: &str) -> (r: Vec<Vec<char>>)
    ensures
        comps_view(r@) == path_components(p@),
{
    let chars = chars_of(p);
    let pieces = split_pieces(chars.as_slice());
    let mut out: Vec<Vec<char>> = Vec::new();
    proof {
        assert(split_slash(p@).len() >= 1) by {
            lemma_split_slash_nonempty(p@);
        }
    }
    let start: usize;
    if chars.len() > 0 && chars[0] == '/' {
        let mut c: Vec<char> = Vec::new();
        c.push('\u{1}');
        out.push(c);
        start = 0;
        proof {
            assert(comps_view(out@) =~= seq![root_component()]);
        }
    } else if is_dot(&pieces[0]) {
        let mut c: Vec<char> = Vec::new();
        c.push('\u{2}');
        out.push(c);
        start = 1;
        proof {
            assert(comps_view(out@) =~= seq![current_component()]);
        }
    } else {
        start = 0;
        proof {
            assert(comps_view(out@) =~= Seq::<Seq<char>>::empty());
        }
    }
    push_piece_components(&pieces, start, &mut out);
    proof {
        let pv = comps_view(pieces@);
        assert(pv.subrange(0, pv.len() as int) =~= pv);
        assert(pv.subrange(1, pv.len() as int) =~= pv.drop_first());
        assert(comps_view(out@) =~= path_components(p@));
    }
    out
}

proof fn lemma_split_slash_nonempty(s: Seq<char>)
    ensures
        split_slash(s).len() >= 1,
    decreases s.len(),
{
    if s.len() > 0 {
        lemma_split_slash_nonempty(s.drop_last());
    }
}

/// Whether component sequence `a` sorts before `b`.
pub fn comps_less(a: &[Vec<char>], b: &[Vec<char>]) -> (r: bool)
    ensures
        r == comps_lt(comps_view(a@), comps_view(b@)),
{
    let ghost av = comps_view(a@);
    let ghost bv = comps_view(b@);
    let mut i: usize = 0;
    proof {
        assert(av.skip(0) =~= av);
        assert(bv.skip(0) =~= bv);
    }
    while i < a.len() && i < b.len()
        invariant
            i <= a@.len(),
            i <= b@.len(),
            av == comps_view(a@),
            bv == comps_view(b@),
            comps_lt(av, bv) == comps_lt(av.skip(i as int), bv.skip(i as int)),
        decreases a@.len() - i,
    {
        proof {
            assert(av.skip(i as int)[0] == a@[i as int]@);
            assert(bv.skip(i as int)[0] == b@[i as int]@);
        }
        if !chars_eq(a[i].as_slice(), b[i].as_slice()) {
            return lex_less(a[i].as_slice(), b[i].as_slice());
        }
        proof {
            assert(av.skip(i as int).drop_first() =~= av.skip(i + 1));
            assert(bv.skip(i as int).drop_first() =~= bv.skip(i + 1));
        }
        i = i + 1;
    }
    i < b.len()
}

/// Whether two component sequences are equal.
pub fn comps_equal(a: &[Vec<char>], b: &[Vec<char>]) -> (r: bool)
    ensures
        r == (comps_view(a@) == comps_view(b@)),
{
    if a.len() != b.len() {
        proof {
            assert(comps_view(a@).len() != comps_view(b@).len());
        }
        return false;
    }
    let mut i: usize = 0;
    while i < a.len()
        invariant
            i <= a@.len(),
            a@.len() == b@.len(),
            forall|k: int| 0 <= k < i ==> a@[k]@ == b@[k]@,
        decreases a@.len() - i,
    {
        if !chars_eq(a[i].as_slice(), b[i].as_slice()) {
            proof {
                assert(comps_view(a@)[i as int] != comps_view(b@)[i as int]);
            }
            return false;
        }
        i = i + 1;
    }
    assert(comps_view(a@) =~= comps_view(b@));
    true
}

/// Whether component sequence `r` begins `p`.
pub fn comps_prefix(p: &[Vec<char>], r: &[Vec<char>]) -> (b: bool)
    ensures
        b == (comps_view(r@).len() <= comps_view(p@).len() && comps_view(p@).subrange(
            0,
            comps_view(r@).len() as int,
        ) == comps_view(r@)),
{
    if r.len() > p.len() {
        return false;
    }
    let mut i: usize = 0;
    while i < r.len()
        invariant
            i <= r@.len(),
            r@.len() <= p@.len(),
            forall|k: int| 0 <= k < i ==> p@[k]@ == r@[k]@,
        decreases r@.len() - i,
    {
        if !chars_eq(p[i].as_slice(), r[i].as_slice()) {
            proof {
                assert(comps_view(p@).subrange(0, r@.len() as int)[i as int] != comps_view(r@)[i as int]);
            }
            return false;
        }
        i = i + 1;
    }
    assert(comps_view(p@).subrange(0, r@.len() as int) =~= comps_view(r@));
    true
}

// ---------------------------------------------------------------------------
// Sorted path sets
// ---------------------------------------------------------------------------

/// The paths are listed in strictly increasing path order, so no two are
/// spellings of one path.
pub open spec fn sorted_paths(s: Seq<Seq<char>>) -> bool {
    forall|i: int, j: int| 0 <= i < j < s.len() ==> path_lt(#[trigger] s[i], #[trigger] s[j])
}

/// Some listed path is a spelling of `p`.
pub open spec fn lists_path(s: Seq<Seq<char>>, p: Seq<char>) -> bool {
    exists|i: int| 0 <= i < s.len() && same_path(#[trigger] s[i], p)
}

/// Some member of `s` is a spelling of `p`.
pub open spec fn has_spelling(s: Set<Seq<char>>, p: Seq<char>) -> bool {
    exists|x: Seq<char>| #[trigger] s.contains(x) && same_path(x, p)
}

/// `s` after adding `p`: unchanged when a spelling of `p` is a member.
pub open spec fn set_add_path(s: Set<Seq<char>>, p: Seq<char>) -> Set<Seq<char>> {
    if has_spelling(s, p) {
        s
    } else {
        s.insert(p)
    }
}

/// `s` after removing every spelling of `p`.
pub open spec fn set_remove_path(s: Set<Seq<char>>, p: Seq<char>) -> Set<Seq<char>> {
    s.filter(|x: Seq<char>| !same_path(x, p))
}

/// `s` after adding the paths of `ps` in turn.
pub open spec fn set_add_paths(s: Set<Seq<char>>, ps: Seq<Seq<char>>) -> Set<Seq<char>>
    decreases ps.len(),
{
    if ps.len() == 0 {
        s
    } else {
        set_add_path(set_add_paths(s, ps.drop_last()), ps.last())
    }
}

proof fn lemma_lists_path_set(s: Seq<Seq<char>>, p: Seq<char>)
    ensures
        lists_path(s, p) == has_spelling(s.to_set(), p),
{
    if lists_path(s, p) {
        let i = choose|i: int| 0 <= i < s.len() && same_path(#[trigger] s[i], p);
        assert(s.to_set().contains(s[i]));
    }
    if has_spelling(s.to_set(), p) {
        let x = choose|x: Seq<char>| #[trigger] s.to_set().contains(x) && same_path(x, p);
        let i = choose|i: int| 0 <= i < s.len() && s[i] == x;
        assert(same_path(s[i], p));
    }
}

/// Views of a list of strings.
pub open spec fn strings_view(v: Seq<String>) -> Seq<Seq<char>> {
    Seq::new(v.len(), |i: int| v[i]@)
}

/// A set of paths kept in path order, as a `BTreeSet<PathBuf>` keeps them: adding
/// a spelling of a path already there keeps the first spelling.
#[derive(Debug)]
pub struct PathSet {
    paths: Vec<String>,
    keys: Vec<Vec<Vec<char>>>,
}

impl PathSet {
    #[verifier::type_invariant]
    spec fn inv(&self) -> bool {
        &&& self.keys@.len() == self.paths@.len()
        &&& forall|i: int| 0 <= i < self.keys@.len() ==> comps_view(#[trigger] self.keys@[i]@) == path_components(
            self.paths@[i]@,
        )
        &&& sorted_paths(strings_view(self.paths@))
    }

    /// The paths, in path order.
    pub closed spec fn listed(&self) -> Seq<Seq<char>> {
        strings_view(self.paths@)
    }

    pub fn new() -> (r: Self)
        ensures
            r.listed() == Seq::<Seq<char>>::empty(),
    {
        let r = PathSet { paths: Vec::new(), keys: Vec::new() };
        assert(strings_view(r.paths@) =~= Seq::<Seq<char>>::empty());
        r
    }

    pub fn len(&self) -> (r: usize)
        ensures
            r == self.listed().len(),
            sorted_paths(self.listed()),
    {
        proof {
            use_type_invariant(self);
        }
        self.paths.len()
    }

    pub fn is_empty(&self) -> (r: bool)
        ensures
            r == (self.listed().len() == 0),
    {
        self.paths.len() == 0
    }

    /// The position of the first listed path that does not sort before `key`,
    /// and whether it is a spelling of `key`'s path.
    fn locate(&self, key: &Vec<Vec<char>>, Ghost(p): Ghost<Seq<char>>) -> (r: (usize, bool))
        requires
            comps_view(key@) == path_components(p),
        ensures
            r.0 <= self.listed().len(),
            forall|i: int| 0 <= i < r.0 ==> path_lt(#[trigger] self.listed()[i], p),
            r.0 < self.listed().len() ==> !path_lt(self.listed()[r.0 as int], p),
            r.1 == (r.0 < self.listed().len() && same_path(self.listed()[r.0 as int], p)),
            r.1 == lists_path(self.listed(), p),
    {
        proof {
            use_type_invariant(self);
        }
        let ghost s = self.listed();
        let mut i: usize = 0;
        while i < self.paths.len()
            invariant
                i <= self.paths@.len(),
                s == self.listed(),
                s == strings_view(self.paths@),
                self.keys@.len() == self.paths@.len(),
                forall|k: int| 0 <= k < self.keys@.len() ==> comps_view(#[trigger] self.keys@[k]@) == path_components(
                    self.paths@[k]@,
                ),
                comps_view(key@) == path_components(p),
                forall|k: int| 0 <= k < i ==> path_lt(#[trigger] s[k], p),
            ensures
                i <= self.paths@.len(),
                forall|k: int| 0 <= k < i ==> path_lt(#[trigger] s[k], p),
                i < self.paths@.len() ==> !path_lt(s[i as int], p),
            decreases self.paths@.len() - i,
        {
            assert(comps_view(self.keys@[i as int]@) == path_components(s[i as int]));
            if !comps_less(self.keys[i].as_slice(), key.as_slice()) {
                break;
            }
            i = i + 1;
        }
        let found = i < self.paths.len() && comps_equal(self.keys[i].as_slice(), key.as_slice());
        proof {
            if i < s.len() {
                assert(comps_view(self.keys@[i as int]@) == path_components(s[i as int]));
            }
            if found {
                assert(same_path(s[i as int], p));
            } else {
                assert forall|j: int| 0 <= j < s.len() implies !same_path(#[trigger] s[j], p) by {
                    if j < i {
                        assert(path_lt(s[j], p));
                        lemma_comps_lt_irreflexive(path_components(p));
                    } else if j > i {
                        assert(path_lt(s[i as int], s[j]));
                        lemma_comps_lt_total(path_components(s[i as int]), path_components(p));
                        if same_path(s[j], p) {
                            assert(!path_lt(s[i as int], p));
                            assert(path_components(s[i as int]) != path_components(p));
                            assert(path_lt(p, s[i as int]));
                            lemma_comps_lt_transitive(
                                path_components(p),
                                path_components(s[i as int]),
                                path_components(s[j]),
                            );
                            lemma_comps_lt_irreflexive(path_components(p));
                        }
                    }
                }
            }
        }
        (i, found)
    }

    /// Adds `p` unless a spelling of its path is already there; true when added.
    pub fn insert(&mut self, p: String) -> (r: bool)
        ensures
            r == !has_spelling(old(self).listed().to_set(), p@),
            sorted_paths(final(self).listed()),
            final(self).listed().to_set() == set_add_path(old(self).listed().to_set(), p@),
            r ==> final(self).listed().len() == old(self).listed().len() + 1,
            !r ==> final(self).listed() == old(self).listed(),
    {
        proof {
            use_type_invariant(&*self);
        }
        proof {
            lemma_lists_path_set(self.listed(), p@);
        }
        let key = components_of(p.as_str());
        let (pos, found) = self.locate(&key, Ghost(p@));
        if found {
            return false;
        }
        let ghost s = self.listed();
        let ghost pv = p@;
        proof {
            assert forall|j: int| pos <= j < s.len() implies path_lt(pv, #[trigger] s[j]) by {
                lemma_comps_lt_total(path_components(s[pos as int]), path_components(pv));
                assert(!same_path(s[pos as int], pv));
                assert(path_lt(pv, s[pos as int]));
                if j > pos {
                    lemma_comps_lt_transitive(path_components(pv), path_components(s[pos as int]), path_components(s[j]));
                }
            }
        }
        let ghost new_s = s.insert(pos as int, pv);
        proof {
            assert forall|i: int, j: int| 0 <= i < j < new_s.len() implies path_lt(#[trigger] new_s[i], #[trigger] new_s[j]) by {
                if j < pos {
                } else if j == pos {
                    assert(path_lt(s[i], pv));
                } else if i < pos {
                    assert(path_lt(s[i], pv));
                    assert(path_lt(pv, s[j - 1]));
                    lemma_comps_lt_transitive(path_components(s[i]), path_components(pv), path_components(s[j - 1]));
                } else if i == pos {
                    assert(path_lt(pv, s[j - 1]));
                } else {
                    assert(path_lt(s[i - 1], s[j - 1]));
                }
            }
            assert forall|k: int| 0 <= k < new_s.len() implies comps_view(#[trigger] self.keys@.insert(pos as int, key)[k]@)
                == path_components(new_s[k]) by {
                if k < pos {
                } else if k == pos {
                } else {
                    assert(self.keys@.insert(pos as int, key)[k] == self.keys@[k - 1]);
                }
            }
        }
        let mut taken = PathSet::new();
        std::mem::swap(&mut taken, self);
        let PathSet { mut paths, mut keys } = taken;
        keys.insert(pos, key);
        paths.insert(pos, p);
        proof {
            assert(strings_view(paths@) =~= new_s);
        }
        *self = PathSet { paths, keys };
        proof {
            assert(new_s.to_set() =~= s.to_set().insert(pv)) by {
                assert forall|x: Seq<char>| new_s.to_set().contains(x) implies s.to_set().insert(pv).contains(x) by {
                    let k = choose|k: int| 0 <= k < new_s.len() && new_s[k] == x;
                    if k < pos {
                        assert(s[k] == x);
                    } else if k > pos {
                        assert(s[k - 1] == x);
                    }
                }
                assert forall|x: Seq<char>| s.to_set().insert(pv).contains(x) implies new_s.to_set().contains(x) by {
                    if x == pv {
                        assert(new_s[pos as int] == x);
                    } else {
                        let k = choose|k: int| 0 <= k < s.len() && s[k] == x;
                        if k < pos {
                            assert(new_s[k] == x);
                        } else {
                            assert(new_s[k + 1] == x);
                        }
                    }
                }
            }
        }
        true
    }

    /// Removes every spelling of `p`'s path; true when one was there.
    pub fn remove(&mut self, p: &str) -> (r: bool)
        ensures
            r == has_spelling(old(self).listed().to_set(), p@),
            sorted_paths(final(self).listed()),
            final(self).listed().to_set() == set_remove_path(old(self).listed().to_set(), p@),
            !r ==> final(self).listed() == old(self).listed(),
            r ==> final(self).listed().len() + 1 == old(self).listed().len(),
    {
        proof {
            use_type_invariant(&*self);
        }
        proof {
            lemma_lists_path_set(self.listed(), p@);
        }
        let key = components_of(p);
        let (pos, found) = self.locate(&key, Ghost(p@));
        let ghost s = self.listed();
        let ghost pv = p@;
        if !found {
            proof {
                assert(s.to_set() =~= set_remove_path(s.to_set(), pv)) by {
                    assert forall|x: Seq<char>| s.to_set().contains(x) implies !same_path(x, pv) by {
                        let k = choose|k: int| 0 <= k < s.len() && s[k] == x;
                        assert(!same_path(s[k], pv));
                    }
                }
            }
            return false;
        }
        let ghost new_s = s.remove(pos as int);
        proof {
            assert forall|i: int, j: int| 0 <= i < j < new_s.len() implies path_lt(#[trigger] new_s[i], #[trigger] new_s[j]) by {
                if j < pos {
                } else if i < pos {
                    assert(path_lt(s[i], s[j + 1]));
                } else {
                    assert(path_lt(s[i + 1], s[j + 1]));
                }
            }
            assert forall|k: int| 0 <= k < new_s.len() implies comps_view(#[trigger] self.keys@.remove(pos as int)[k]@)
                == path_components(new_s[k]) by {
                if k >= pos {
                    assert(self.keys@.remove(pos as int)[k] == self.keys@[k + 1]);
                }
            }
        }
        let mut taken = PathSet::new();
        std::mem::swap(&mut taken, self);
        let PathSet { mut paths, mut keys } = taken;
        keys.remove(pos);
        paths.remove(pos);
        proof {
            assert(strings_view(paths@) =~= new_s);
        }
        *self = PathSet { paths, keys };
        proof {
            assert(new_s.to_set() =~= set_remove_path(s.to_set(), pv)) by {
                assert forall|x: Seq<char>| new_s.to_set().contains(x) implies set_remove_path(s.to_set(), pv).contains(x) by {
                    let k = choose|k: int| 0 <= k < new_s.len() && new_s[k] == x;
                    if k < pos {
                        assert(s[k] == x);
                        assert(path_lt(s[k], s[pos as int]));
                        lemma_comps_lt_irreflexive(path_components(pv));
                    } else {
                        assert(s[k + 1] == x);
                        assert(path_lt(s[pos as int], s[k + 1]));
                        lemma_comps_lt_irreflexive(path_components(pv));
                    }
                }
                assert forall|x: Seq<char>| set_remove_path(s.to_set(), pv).contains(x) implies new_s.to_set().contains(x) by {
                    let k = choose|k: int| 0 <= k < s.len() && s[k] == x;
                    if k < pos {
                        assert(new_s[k] == x);
                    } else if k > pos {
                        assert(new_s[k - 1] == x);
                    }
                }
            }
        }
        true
    }

    /// Hands out the paths in order and leaves the set empty.
    pub fn take_all(&mut self) -> (r: Vec<String>)
        ensures
            strings_view(r@) == old(self).listed(),
            sorted_paths(strings_view(r@)),
            final(self).listed() == Seq::<Seq<char>>::empty(),
    {
        proof {
            use_type_invariant(&*self);
        }
        let mut taken = PathSet::new();
        std::mem::swap(&mut taken, self);
        taken.paths
    }
}

} // verus!
