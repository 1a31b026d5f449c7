//! Shared plain types and small verified utilities: operating-system tags,
//! string helpers over character sequences, error aggregation, and the
//! virtual-path absolutization that the whole crate keys items by.

use vstd::prelude::*;
use vstd::seq_lib::*;

verus! {

/// Operating-system tag of a selector alternative.  `Global` applies
/// everywhere; the named tags apply only on the matching host.
#[derive(Debug, Clone, Copy, PartialEq, Eq, Structural)]
pub enum Os {
    Global,
    Windows,
    Linux,
    Darwin,
}

impl Os {
    pub fn is_global(&self) -> (r: bool)
        ensures
            r == (*self == Os::Global),
    {
        matches!(self, Os::Global)
    }

    pub fn is_windows(&self) -> (r: bool)
        ensures
            r == (*self == Os::Windows),
    {
        matches!(self, Os::Windows)
    }

    pub fn is_linux(&self) -> (r: bool)
        ensures
            r == (*self == Os::Linux),
    {
        matches!(self, Os::Linux)
    }

    pub fn is_darwin(&self) -> (r: bool)
        ensures
            r == (*self == Os::Darwin),
    {
        matches!(self, Os::Darwin)
    }
}

/// Why running an external command failed; produced by the process runner
/// outside this crate and consumed by the install error mapping.
#[derive(Debug, Clone, PartialEq)]
pub enum RunError {
    /// The command could not be spawned; carries the system error text.
    Spawn(String),
    /// The command ran but exited unsuccessfully, with this exit code.
    Execute(Option<i32>),
    /// Writing the command's output failed; carries the system error text.
    Write(String),
}

// ---------------------------------------------------------------------------
// String utilities
// ---------------------------------------------------------------------------

/// Collects the characters of `s` into a vector, so that verified code can
/// index them directly.
pub fn str_to_chars(s: &str) -> (v: Vec<char>)
    ensures
        v@ == s@,
{
    let n = s.unicode_len();
    let mut v: Vec<char> = Vec::new();
    let mut i: usize = 0;
    while i < n
        invariant
            n == s@.len(),
            i <= n,
            v@ == s@.subrange(0, i as int),
        decreases n - i,
    {
        v.push(s.get_char(i));
        i = i + 1;
    }
    proof {
        assert(v@ =~= s@);
    }
    v
}

/// Relies on `String`'s `FromIterator` implementation: collecting an
/// iterator of characters yields a string of exactly those characters.
#[verifier::external_body]
pub fn chars_to_string(v: &Vec<char>) -> (r: String)
    ensures
        r@ == v@,
{
    v.iter().collect()
}

/// Copies a character vector.
pub fn clone_chars(v: &Vec<char>) -> (r: Vec<char>)
    ensures
        r@ == v@,
{
    let mut r: Vec<char> = Vec::new();
    let mut i: usize = 0;
    while i < v.len()
        invariant
            i <= v@.len(),
            r@ == v@.subrange(0, i as int),
        decreases v@.len() - i,
    {
        r.push(v[i]);
        i = i + 1;
    }
    proof {
        assert(r@ =~= v@);
    }
    r
}

/// Copies a string vector element-wise.
pub fn clone_strings(v: &Vec<String>) -> (r: Vec<String>)
    ensures
        r@ == v@,
{
    let mut r: Vec<String> = Vec::new();
    let mut i: usize = 0;
    while i < v.len()
        invariant
            i <= v@.len(),
            r@ == v@.subrange(0, i as int),
        decreases v@.len() - i,
    {
        r.push(v[i].clone());
        i = i + 1;
    }
    proof {
        assert(r@ =~= v@);
    }
    r
}

/// String equality by contents.
pub fn str_eq(a: &str, b: &str) -> (r: bool)
    ensures
        r == (a@ == b@),
{
    let sa = String::from_str(a);
    let sb = String::from_str(b);
    sa == sb
}

/// Concatenation of two string slices.
pub fn str_concat(a: &str, b: &str) -> (r: String)
    ensures
        r@ == a@ + b@,
{
    String::from_str(a).concat(b)
}

/// `p` occurs at the front of `s`.
pub open spec fn is_prefix_of(p: Seq<char>, s: Seq<char>) -> bool {
    p.len() <= s.len() && s.subrange(0, p.len() as int) == p
}

/// `p` occurs at the back of `s`.
pub open spec fn is_suffix_of(p: Seq<char>, s: Seq<char>) -> bool {
    p.len() <= s.len() && s.subrange(s.len() - p.len(), s.len() as int) == p
}

/// `p` occurs contiguously somewhere inside `s`.
pub open spec fn seq_contains(s: Seq<char>, p: Seq<char>) -> bool {
    exists|k: int| 0 <= k <= s.len() - p.len() && #[trigger] s.subrange(k, k + p.len()) == p
}

/// `p` matches `s` at offset `k`.
fn chars_match_at(s: &Vec<char>, p: &Vec<char>, k: usize) -> (r: bool)
    requires
        k + p@.len() <= s@.len(),
    ensures
        r == (s@.subrange(k as int, k + p@.len()) == p@),
{
    let slen = s.len();
    let mut j: usize = 0;
    while j < p.len()
        invariant
            slen == s@.len(),
            k + p@.len() <= s@.len() <= usize::MAX,
            j <= p@.len(),
            forall|m: int| 0 <= m < j ==> s@[k + m] == p@[m],
        decreases p@.len() - j,
    {
        if s[k + j] != p[j] {
            proof {
                assert(s@.subrange(k as int, k + p@.len())[j as int] != p@[j as int]);
            }
            return false;
        }
        j = j + 1;
    }
    proof {
        assert(s@.subrange(k as int, k + p@.len()) =~= p@);
    }
    true
}

/// Element-wise equality of character vectors.
pub fn chars_eq(a: &Vec<char>, b: &Vec<char>) -> (r: bool)
    ensures
        r == (a@ == b@),
{
    if a.len() != b.len() {
        return false;
    }
    let r = chars_match_at(a, b, 0);
    proof {
        assert(a@.subrange(0, b@.len() as int) =~= a@);
    }
    r
}

/// Whether `s` starts with `p`.
pub fn chars_starts_with(s: &Vec<char>, p: &Vec<char>) -> (r: bool)
    ensures
        r == is_prefix_of(p@, s@),
{
    if p.len() > s.len() {
        return false;
    }
    chars_match_at(s, p, 0)
}

/// Whether `s` ends with `p`.
pub fn chars_ends_with(s: &Vec<char>, p: &Vec<char>) -> (r: bool)
    ensures
        r == is_suffix_of(p@, s@),
{
    if p.len() > s.len() {
        return false;
    }
    chars_match_at(s, p, s.len() - p.len())
}

/// Whether `p` occurs contiguously inside `s`.
pub fn chars_contains(s: &Vec<char>, p: &Vec<char>) -> (r: bool)
    ensures
        r == seq_contains(s@, p@),
{
    if p.len() > s.len() {
        return false;
    }
    if p.len() == 0 {
        proof {
            assert(s@.subrange(0, 0 + p@.len() as int) =~= p@);
            assert(seq_contains(s@, p@));
        }
        return true;
    }
    let limit = s.len() - p.len();
    let mut k: usize = 0;
    while k <= limit
        invariant
            1 <= p@.len() <= s@.len() <= usize::MAX,
            limit == s@.len() - p@.len(),
            k <= limit + 1,
            forall|m: int| 0 <= m < k ==> #[trigger] s@.subrange(m, m + p@.len()) != p@,
        decreases limit + 1 - k,
    {
        if chars_match_at(s, p, k) {
            proof {
                assert(s@.subrange(k as int, k + p@.len()) == p@);
                assert(seq_contains(s@, p@));
            }
            return true;
        }
        k = k + 1;
    }
    false
}

// ---------------------------------------------------------------------------
// Virtual path absolutization
// ---------------------------------------------------------------------------

/// Splits `s` at every `/`, keeping empty segments, one character at a time.
pub open spec fn spec_split(s: Seq<char>) -> Seq<Seq<char>>
    decreases s.len(),
{
    if s.len() == 0 {
        seq![Seq::<char>::empty()]
    } else if s[0] == '/' {
        seq![Seq::<char>::empty()] + spec_split(s.drop_first())
    } else {
        let rest = spec_split(s.drop_first());
        seq![seq![s[0]] + rest[0]] + rest.drop_first()
    }
}

proof fn lemma_split_nonempty(s: Seq<char>)
    ensures
        spec_split(s).len() >= 1,
    decreases s.len(),
{
    if s.len() != 0 {
        lemma_split_nonempty(s.drop_first());
    }
}

proof fn lemma_split_push(s: Seq<char>, c: char)
    ensures
        c == '/' ==> spec_split(s.push(c)) == spec_split(s) + seq![Seq::<char>::empty()],
        c != '/' ==> spec_split(s.push(c)) == spec_split(s).update(
            spec_split(s).len() - 1,
            spec_split(s).last().push(c),
        ),
    decreases s.len(),
{
    lemma_split_nonempty(s);
    if s.len() == 0 {
        assert(s.push(c).len() == 1 && s.push(c)[0] == c);
        assert(s.push(c).drop_first() =~= Seq::<char>::empty());
        assert(spec_split(Seq::<char>::empty()) == seq![Seq::<char>::empty()]);
        if c == '/' {
            assert(spec_split(s.push(c)) == seq![Seq::<char>::empty()] + seq![
                Seq::<char>::empty(),
            ]);
            assert(spec_split(s.push(c)) =~~= spec_split(s) + seq![Seq::<char>::empty()]);
        } else {
            assert(spec_split(s.push(c)) == seq![seq![c] + Seq::<char>::empty()] + seq![
                Seq::<char>::empty(),
            ].drop_first());
            assert(seq![c] + Seq::<char>::empty() =~= seq![c]);
            assert(spec_split(s) == seq![Seq::<char>::empty()]);
            assert(spec_split(s).last().push(c) =~= seq![c]);
            assert(spec_split(s.push(c)) =~~= spec_split(s).update(
                spec_split(s).len() - 1,
                spec_split(s).last().push(c),
            ));
        }
    } else {
        let t = s.drop_first();
        lemma_split_nonempty(t);
        assert(s.push(c)[0] == s[0]);
        assert(s.push(c).drop_first() =~= t.push(c));
        lemma_split_push(t, c);
        if c == '/' {
            if s[0] == '/' {
                assert(spec_split(s.push(c)) == seq![Seq::<char>::empty()] + spec_split(t.push(c)));
                assert(spec_split(s.push(c)) =~~= spec_split(s) + seq![Seq::<char>::empty()]);
            } else {
                assert(spec_split(t.push(c))[0] == spec_split(t)[0]);
                assert(spec_split(s.push(c)) =~~= spec_split(s) + seq![Seq::<char>::empty()]);
            }
        } else {
            if s[0] == '/' {
                assert(spec_split(s.push(c)) == seq![Seq::<char>::empty()] + spec_split(t.push(c)));
                assert(spec_split(s.push(c)) =~~= spec_split(s).update(
                    spec_split(s).len() - 1,
                    spec_split(s).last().push(c),
                ));
            } else {
                if spec_split(t).len() == 1 {
                    assert(spec_split(t.push(c)) == spec_split(t).update(
                        0,
                        spec_split(t)[0].push(c),
                    ));
                    assert(spec_split(s) =~~= seq![seq![s[0]] + spec_split(t)[0]]);
                    assert(seq![s[0]] + spec_split(t)[0].push(c) =~= (seq![s[0]] + spec_split(
                        t,
                    )[0]).push(c));
                    assert(spec_split(s.push(c)) =~~= spec_split(s).update(
                        spec_split(s).len() - 1,
                        spec_split(s).last().push(c),
                    ));
                } else {
                    assert(spec_split(t.push(c))[0] == spec_split(t)[0]);
                    assert(spec_split(s.push(c)) =~~= spec_split(s).update(
                        spec_split(s).len() - 1,
                        spec_split(s).last().push(c),
                    ));
                }
            }
        }
    }
}

/// Splits a character vector at every `/`, keeping empty segments.
fn split_slash(s: &Vec<char>) -> (segs: Vec<Vec<char>>)
    ensures
        segs.deep_view() == spec_split(s@),
{
    let mut segs: Vec<Vec<char>> = Vec::new();
    segs.push(Vec::new());
    let mut i: usize = 0;
    proof {
        assert(s@.subrange(0, 0) =~= Seq::<char>::empty());
        assert(segs.deep_view() =~~= spec_split(s@.subrange(0, 0)));
    }
    while i < s.len()
        invariant
            i <= s@.len(),
            segs.deep_view() == spec_split(s@.subrange(0, i as int)),
            segs@.len() >= 1,
        decreases s@.len() - i,
    {
        let c = s[i];
        proof {
            assert(s@.subrange(0, i + 1) =~= s@.subrange(0, i as int).push(s@[i as int]));
            lemma_split_push(s@.subrange(0, i as int), s@[i as int]);
        }
        if c == '/' {
            segs.push(Vec::new());
            proof {
                assert(segs.deep_view() =~~= spec_split(s@.subrange(0, i + 1)));
            }
        } else {
            let n = segs.len();
            let mut last = segs.remove(n - 1);
            last.push(c);
            segs.push(last);
            proof {
                assert(segs.deep_view() =~~= spec_split(s@.subrange(0, i + 1)));
            }
        }
        i = i + 1;
    }
    proof {
        assert(s@.subrange(0, s@.len() as int) =~= s@);
    }
    segs
}

/// Resolves already-split path segments against a stack of kept segments:
/// empty and `.` segments are skipped, `..` pops, and popping past the root
/// fails.
pub open spec fn spec_resolve(segs: Seq<Seq<char>>, stack: Seq<Seq<char>>) -> Option<
    Seq<Seq<char>>,
>
    decreases segs.len(),
{
    if segs.len() == 0 {
        Some(stack)
    } else {
        let h = segs[0];
        if h.len() == 0 || h == seq!['.'] {
            spec_resolve(segs.drop_first(), stack)
        } else if h == seq!['.', '.'] {
            if stack.len() == 0 {
                None
            } else {
                spec_resolve(segs.drop_first(), stack.drop_last())
            }
        } else {
            spec_resolve(segs.drop_first(), stack.push(h))
        }
    }
}

/// Joins segments with a leading `/` before each one.
pub open spec fn spec_join_slash(segs: Seq<Seq<char>>) -> Seq<char>
    decreases segs.len(),
{
    if segs.len() == 0 {
        Seq::<char>::empty()
    } else {
        seq!['/'] + segs[0] + spec_join_slash(segs.drop_first())
    }
}

proof fn lemma_join_push(segs: Seq<Seq<char>>, x: Seq<char>)
    ensures
        spec_join_slash(segs.push(x)) == spec_join_slash(segs) + seq!['/'] + x,
    decreases segs.len(),
{
    if segs.len() == 0 {
        assert(segs.push(x).drop_first() =~~= Seq::<Seq<char>>::empty());
        assert(segs.push(x)[0] == x);
        assert(spec_join_slash(Seq::<Seq<char>>::empty()) == Seq::<char>::empty());
        assert(spec_join_slash(segs.push(x)) == seq!['/'] + x + Seq::<char>::empty());
        assert(spec_join_slash(segs) == Seq::<char>::empty());
        assert(spec_join_slash(segs.push(x)) =~= spec_join_slash(segs) + seq!['/'] + x);
    } else {
        assert(segs.push(x)[0] == segs[0]);
        assert(segs.push(x).drop_first() =~~= segs.drop_first().push(x));
        lemma_join_push(segs.drop_first(), x);
        assert(spec_join_slash(segs.push(x)) == seq!['/'] + segs[0] + spec_join_slash(
            segs.drop_first().push(x),
        ));
        assert(spec_join_slash(segs) == seq!['/'] + segs[0] + spec_join_slash(segs.drop_first()));
        assert(spec_join_slash(segs.push(x)) =~= spec_join_slash(segs) + seq!['/'] + x);
    }
}

/// The canonical `/`-rooted form of `s`: split on `/`, collapse `.` and
/// empty segments, resolve `..` against the stack (failing past the root),
/// and rejoin.  The empty stack yields `/` itself.
pub open spec fn spec_absolutize(s: Seq<char>) -> Option<Seq<char>> {
    match spec_resolve(spec_split(s), Seq::empty()) {
        None => None,
        Some(stack) => if stack.len() == 0 {
            Some(seq!['/'])
        } else {
            Some(spec_join_slash(stack))
        },
    }
}

/// The path walked above the virtual root while being absolutized.
#[derive(Debug, Clone, Copy, PartialEq, Eq, Structural)]
pub struct PathError;

/// Resolves the split segments of `path` against the virtual root, handing
/// back the stack of kept segments.
pub fn resolve_segments(path: &str) -> (r: Result<Vec<Vec<char>>, PathError>)
    ensures
        r is Ok <==> spec_resolve(spec_split(path@), Seq::empty()) is Some,
        r is Ok ==> Some(r->Ok_0.deep_view()) == spec_resolve(spec_split(path@), Seq::empty()),
{
    let chars = str_to_chars(path);
    let segs = split_slash(&chars);
    let ghost all_segs = segs.deep_view();
    let mut stack: Vec<Vec<char>> = Vec::new();
    let mut i: usize = 0;
    proof {
        assert(all_segs.skip(0) =~~= all_segs);
        assert(stack.deep_view() =~~= Seq::<Seq<char>>::empty());
    }
    while i < segs.len()
        invariant
            i <= segs@.len(),
            segs.deep_view() == all_segs,
            all_segs == spec_split(path@),
            spec_resolve(all_segs, Seq::empty()) == spec_resolve(
                all_segs.skip(i as int),
                stack.deep_view(),
            ),
        decreases segs@.len() - i,
    {
        let ghost pre = stack.deep_view();
        let seg = &segs[i];
        proof {
            assert(all_segs.skip(i as int).drop_first() =~~= all_segs.skip(i + 1));
            assert(all_segs.skip(i as int)[0] == segs@[i as int]@);
        }
        if seg.len() == 0 || (seg.len() == 1 && seg[0] == '.') {
            proof {
                if seg@.len() == 1 && seg@[0] == '.' {
                    assert(seg@ =~= seq!['.']);
                }
                assert(spec_resolve(all_segs.skip(i as int), pre) == spec_resolve(
                    all_segs.skip(i + 1),
                    pre,
                ));
            }
        } else if seg.len() == 2 && seg[0] == '.' && seg[1] == '.' {
            proof {
                assert(seg@ =~= seq!['.', '.']);
            }
            if stack.len() == 0 {
                proof {
                    assert(pre.len() == 0);
                    assert(spec_resolve(all_segs.skip(i as int), pre) is None);
                }
                return Err(PathError);
            }
            let _dropped = stack.pop();
            proof {
                assert(stack.deep_view() =~~= pre.drop_last());
                assert(spec_resolve(all_segs.skip(i as int), pre) == spec_resolve(
                    all_segs.skip(i + 1),
                    pre.drop_last(),
                ));
            }
        } else {
            proof {
                assert(seg@.len() != 0 && seg@ != seq!['.'] && seg@ != seq!['.', '.']);
            }
            stack.push(clone_chars(seg));
            proof {
                assert(stack.deep_view() =~~= pre.push(seg@));
                assert(spec_resolve(all_segs.skip(i as int), pre) == spec_resolve(
                    all_segs.skip(i + 1),
                    pre.push(seg@),
                ));
            }
        }
        i = i + 1;
    }
    proof {
        assert(all_segs.skip(segs@.len() as int) =~~= Seq::<Seq<char>>::empty());
    }
    Ok(stack)
}

/// Joins the first `k` segments of `stack` as an absolute path; `k == 0`
/// yields the root `/` itself.
pub fn join_prefix(stack: &Vec<Vec<char>>, k: usize) -> (r: String)
    requires
        k <= stack@.len(),
    ensures
        k == 0 ==> r@ == seq!['/'],
        k > 0 ==> r@ == spec_join_slash(stack.deep_view().take(k as int)),
{
    let mut out: Vec<char> = Vec::new();
    if k == 0 {
        out.push('/');
        proof {
            assert(out@ =~= seq!['/']);
        }
        return chars_to_string(&out);
    }
    let ghost sv = stack.deep_view();
    let mut j: usize = 0;
    proof {
        assert(sv.take(0) =~~= Seq::<Seq<char>>::empty());
    }
    while j < k
        invariant
            j <= k <= stack@.len(),
            sv == stack.deep_view(),
            out@ == spec_join_slash(sv.take(j as int)),
        decreases k - j,
    {
        out.push('/');
        let ghost mid = out@;
        let seg = &stack[j];
        let mut m: usize = 0;
        proof {
            assert(seg@.subrange(0, 0) =~= Seq::<char>::empty());
            assert(mid + seg@.subrange(0, 0) =~= mid);
        }
        while m < seg.len()
            invariant
                m <= seg@.len(),
                seg@ == sv[j as int],
                out@ == mid + seg@.subrange(0, m as int),
            decreases seg@.len() - m,
        {
            out.push(seg[m]);
            proof {
                assert(seg@.subrange(0, m + 1) =~= seg@.subrange(0, m as int).push(seg@[m as int]));
                assert(out@ =~= mid + seg@.subrange(0, m + 1));
            }
            m = m + 1;
        }
        proof {
            assert(seg@.subrange(0, seg@.len() as int) =~= seg@);
            assert(sv.take(j as int).push(sv[j as int]) =~~= sv.take(j + 1));
            lemma_join_push(sv.take(j as int), sv[j as int]);
            assert(out@ =~= spec_join_slash(sv.take(j + 1)));
        }
        j = j + 1;
    }
    chars_to_string(&out)
}

/// Rewrites `path` into its canonical virtual absolute form: `/`-rooted,
/// `/`-separated, with `.` and `..` collapsed.  Fails exactly when a `..`
/// would climb above the root.
pub fn absolutize_virtually(path: &str) -> (r: Result<String, PathError>)
    ensures
        r is Ok <==> spec_absolutize(path@) is Some,
        r is Ok ==> r->Ok_0@ == spec_absolutize(path@)->0,
{
    let stack = match resolve_segments(path) {
        Ok(s) => s,
        Err(e) => {
            return Err(e);
        },
    };
    let n = stack.len();
    let r = join_prefix(&stack, n);
    proof {
        if n > 0 {
            assert(stack.deep_view().take(n as int) =~~= stack.deep_view());
        }
    }
    Ok(r)
}

/// The directory and base name of a path, after absolutization: the base is
/// the last kept segment, the directory is everything before it.  A path
/// that resolves to the bare root has no base name.
pub open spec fn spec_dir_and_base(p: Seq<char>) -> Option<(Seq<char>, Seq<char>)> {
    match spec_resolve(spec_split(p), Seq::empty()) {
        None => None,
        Some(stack) => if stack.len() == 0 {
            None
        } else {
            Some(
                (
                    if stack.len() == 1 {
                        seq!['/']
                    } else {
                        spec_join_slash(stack.drop_last())
                    },
                    stack.last(),
                ),
            )
        },
    }
}

/// Splits `path` into its absolutized directory and base name.
pub fn split_path(path: &str) -> (r: Result<(String, String), PathError>)
    ensures
        r is Ok <==> spec_dir_and_base(path@) is Some,
        r is Ok ==> ((r->Ok_0).0@, (r->Ok_0).1@) == spec_dir_and_base(path@)->0,
{
    let stack = match resolve_segments(path) {
        Ok(s) => s,
        Err(e) => {
            return Err(e);
        },
    };
    if stack.len() == 0 {
        return Err(PathError);
    }
    let n = stack.len();
    let dir = join_prefix(&stack, n - 1);
    let base = chars_to_string(&stack[n - 1]);
    proof {
        if n > 1 {
            assert(stack.deep_view().take(n - 1) =~~= stack.deep_view().drop_last());
        }
        assert(stack.deep_view()[n - 1] == stack.deep_view().last());
    }
    Ok((dir, base))
}

// ---------------------------------------------------------------------------
// Error aggregation
// ---------------------------------------------------------------------------

/// A batch of independent errors reported together.
#[derive(Debug)]
pub struct MultipleErrors<E>(pub Vec<E>);

/// The successful values of `s`, in order.
pub open spec fn oks_of<T, E>(s: Seq<Result<T, E>>) -> Seq<T> {
    s.filter(|x: Result<T, E>| x is Ok).map_values(|x: Result<T, E>| x->Ok_0)
}

/// The failed values of `s`, in order.
pub open spec fn errs_of<T, E>(s: Seq<Result<T, E>>) -> Seq<E> {
    s.filter(|x: Result<T, E>| x is Err).map_values(|x: Result<T, E>| x->Err_0)
}

proof fn lemma_split_results_push<T, E>(s: Seq<Result<T, E>>, x: Result<T, E>)
    ensures
        x is Ok ==> oks_of(s.push(x)) == oks_of(s).push(x->Ok_0),
        x is Ok ==> errs_of(s.push(x)) == errs_of(s),
        x is Err ==> errs_of(s.push(x)) == errs_of(s).push(x->Err_0),
        x is Err ==> oks_of(s.push(x)) == oks_of(s),
{
    broadcast use Seq::lemma_filter_push;
    broadcast use Seq::lemma_push_map_commute;

    if x is Ok {
        assert(oks_of(s.push(x)) =~= oks_of(s).push(x->Ok_0));
        assert(errs_of(s.push(x)) =~= errs_of(s));
    } else {
        assert(errs_of(s.push(x)) =~= errs_of(s).push(x->Err_0));
        assert(oks_of(s.push(x)) =~= oks_of(s));
    }
}

/// Splits a batch of results: all values when every entry succeeded, the
/// full list of failures otherwise.
pub fn join_err_result<T, E>(result: Vec<Result<T, E>>) -> (r: Result<Vec<T>, MultipleErrors<E>>)
    ensures
        (r is Ok) == (forall|i: int| 0 <= i < result@.len() ==> result@[i] is Ok),
        r is Ok ==> r->Ok_0@ == oks_of(result@) && r->Ok_0@.len() == result@.len(),
        r is Err ==> r->Err_0.0@ == errs_of(result@) && r->Err_0.0@.len() >= 1,
{
    let ghost orig = result@;
    let mut rest = result;
    let mut oks: Vec<T> = Vec::new();
    let mut errs: Vec<E> = Vec::new();
    let ghost i: int = 0;
    proof {
        assert(orig.take(0).filter(|x: Result<T, E>| x is Ok) =~= Seq::<Result<T, E>>::empty());
        assert(orig.take(0).filter(|x: Result<T, E>| x is Err) =~= Seq::<Result<T, E>>::empty());
        assert(oks@ =~= oks_of(orig.take(0)));
        assert(errs@ =~= errs_of(orig.take(0)));
        assert(rest@ =~= orig.skip(0));
    }
    while rest.len() > 0
        invariant
            0 <= i <= orig.len(),
            rest@ == orig.skip(i),
            oks@ == oks_of(orig.take(i)),
            errs@ == errs_of(orig.take(i)),
            oks@.len() + errs@.len() == i,
            (errs@.len() == 0) == (forall|j: int| 0 <= j < i ==> orig[j] is Ok),
        decreases rest@.len(),
    {
        let x = rest.remove(0);
        proof {
            assert(orig.skip(i)[0] == orig[i]);
            assert(rest@ =~= orig.skip(i + 1));
            assert(orig.take(i + 1) =~= orig.take(i).push(orig[i]));
            lemma_split_results_push(orig.take(i), orig[i]);
        }
        match x {
            Ok(t) => {
                oks.push(t);
            },
            Err(e) => {
                errs.push(e);
            },
        }
        proof {
            i = i + 1;
        }
    }
    proof {
        assert(orig.take(orig.len() as int) =~= orig);
    }
    if errs.len() == 0 {
        Ok(oks)
    } else {
        Err(MultipleErrors(errs))
    }
}

/// Reports a batch of errors, or nothing when the batch is empty.
pub fn join_err<E>(result: Vec<E>) -> (r: Result<(), MultipleErrors<E>>)
    ensures
        (r is Ok) == (result@.len() == 0),
        r is Err ==> r->Err_0.0@ == result@,
{
    if result.len() == 0 {
        Ok(())
    } else {
        Err(MultipleErrors(result))
    }
}

// ---------------------------------------------------------------------------
// File lookup by extension preference
// ---------------------------------------------------------------------------

/// The candidate file name `base.ext`.
pub open spec fn spec_candidate(base: Seq<char>, ext: Seq<char>) -> Seq<char> {
    base + seq!['.'] + ext
}

/// The first existing candidate for `base`, trying `yaml`, `yml`, `toml`,
/// `json` in that order.
pub open spec fn spec_get_file(files: Seq<Seq<char>>, base: Seq<char>) -> Option<
    (Seq<char>, crate::FileFormat),
> {
    if files.contains(spec_candidate(base, "yaml"@)) {
        Some((spec_candidate(base, "yaml"@), crate::FileFormat::Yaml))
    } else if files.contains(spec_candidate(base, "yml"@)) {
        Some((spec_candidate(base, "yml"@), crate::FileFormat::Yaml))
    } else if files.contains(spec_candidate(base, "toml"@)) {
        Some((spec_candidate(base, "toml"@), crate::FileFormat::Toml))
    } else if files.contains(spec_candidate(base, "json"@)) {
        Some((spec_candidate(base, "json"@), crate::FileFormat::Json))
    } else {
        None
    }
}

/// Whether `files` holds a string whose contents equal `name`.
fn contains_string(files: &Vec<String>, name: &str) -> (r: bool)
    ensures
        r == files.deep_view().contains(name@),
{
    let mut i: usize = 0;
    while i < files.len()
        invariant
            i <= files@.len(),
            forall|j: int| 0 <= j < i ==> files.deep_view()[j] != name@,
        decreases files@.len() - i,
    {
        if str_eq(files[i].as_str(), name) {
            proof {
                assert(files.deep_view()[i as int] == name@);
            }
            return true;
        }
        i = i + 1;
    }
    false
}

/// Picks, among `files`, the first `base_name.<ext>` candidate in the
/// supported-extension order, together with its format.
pub fn get_file_with_format(files: &Vec<String>, base_name: &str) -> (r: Option<
    (String, crate::FileFormat),
>)
    ensures
        r is Some <==> spec_get_file(files.deep_view(), base_name@) is Some,
        r is Some ==> ((r->0).0@, (r->0).1) == spec_get_file(files.deep_view(), base_name@)->0,
{
    proof {
        reveal_strlit(".");
        reveal_strlit("yaml");
        reveal_strlit("yml");
        reveal_strlit("toml");
        reveal_strlit("json");
    }
    let dot = str_concat(base_name, ".");
    let cand_yaml = str_concat(dot.as_str(), "yaml");
    proof {
        assert(cand_yaml@ =~= spec_candidate(base_name@, "yaml"@));
    }
    if contains_string(files, cand_yaml.as_str()) {
        return Some((cand_yaml, crate::FileFormat::Yaml));
    }
    let cand_yml = str_concat(dot.as_str(), "yml");
    proof {
        assert(cand_yml@ =~= spec_candidate(base_name@, "yml"@));
    }
    if contains_string(files, cand_yml.as_str()) {
        return Some((cand_yml, crate::FileFormat::Yaml));
    }
    let cand_toml = str_concat(dot.as_str(), "toml");
    proof {
        assert(cand_toml@ =~= spec_candidate(base_name@, "toml"@));
    }
    if contains_string(files, cand_toml.as_str()) {
        return Some((cand_toml, crate::FileFormat::Toml));
    }
    let cand_json = str_concat(dot.as_str(), "json");
    proof {
        assert(cand_json@ =~= spec_candidate(base_name@, "json"@));
    }
    if contains_string(files, cand_json.as_str()) {
        return Some((cand_json, crate::FileFormat::Json));
    }
    None
}

} // verus!
