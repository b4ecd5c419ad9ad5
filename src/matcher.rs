use vstd::prelude::*;
use vstd::string::StrSliceExecFns;

verus! {

/// First character of the lowercase mapping of `c`.
pub uninterp spec fn lower_char(c: char) -> char;

/// Lowercase form of a string.
pub uninterp spec fn lower_str(s: Seq<char>) -> Seq<char>;

/// Relies on char::to_lowercase: the first character that the lowercase mapping yields,
/// which depends on `c` alone.
#[verifier::external_body]
fn fold_char(c: char) -> (r: char)
    ensures
        r == lower_char(c),
{
    c.to_lowercase().next().unwrap_or(c)
}

/// Relies on str::to_lowercase: the lowercase form depends on the string alone, and
/// every character maps to at least one, so only the empty string gives an empty result.
#[verifier::external_body]
fn fold_str(s: &str) -> (r: String)
    ensures
        r@ == lower_str(s@),
        r@.len() == 0 <==> s@.len() == 0,
{
    s.to_lowercase()
}

/// A character that ends a run in which a match may lie: a newline or the separator.
pub open spec fn is_boundary(c: char, sep: char) -> bool {
    c == '\n' || c == sep
}

/// Index where the current run starts: at the last boundary character, or at 0.
/// The boundary character itself belongs to the run it opens.
pub open spec fn run_start(s: Seq<char>, sep: char) -> int
    decreases s.len(),
{
    if s.len() == 0 {
        0
    } else if is_boundary(s.last(), sep) {
        s.len() - 1
    } else {
        run_start(s.drop_last(), sep)
    }
}

/// Each character replaced by the first character of its lowercase mapping.
pub open spec fn folded(s: Seq<char>) -> Seq<char> {
    s.map_values(|c: char| lower_char(c))
}

/// Whether a match of `pat` ends at the last character of `s`: the last `pat.len()`
/// characters fold to `pat`, and none of them but the first is a boundary.
pub open spec fn ends_with_match(s: Seq<char>, sep: char, pat: Seq<char>) -> bool {
    &&& 0 < pat.len() <= s.len()
    &&& folded(s.subrange(s.len() - pat.len(), s.len() as int)) == pat
    &&& forall|k: int| s.len() - pat.len() < k < s.len() ==> !is_boundary(#[trigger] s[k], sep)
}

/// The folded characters that the matcher keeps: the last `m` characters of the current
/// run, or the whole run when it is shorter.
pub open spec fn window_of(s: Seq<char>, sep: char, m: nat) -> Seq<char> {
    let from = if run_start(s, sep) > s.len() - m {
        run_start(s, sep)
    } else {
        s.len() - m
    };
    folded(s.subrange(from, s.len() as int))
}

proof fn lemma_run_start(s: Seq<char>, sep: char)
    ensures
        0 <= run_start(s, sep) <= s.len(),
        s.len() > 0 ==> run_start(s, sep) < s.len(),
        run_start(s, sep) > 0 ==> is_boundary(s[run_start(s, sep)], sep),
        forall|k: int| run_start(s, sep) < k < s.len() ==> !is_boundary(#[trigger] s[k], sep),
    decreases s.len(),
{
    if s.len() > 0 {
        let t = s.drop_last();
        lemma_run_start(t, sep);
        assert forall|k: int| run_start(s, sep) < k < s.len() implies !is_boundary(
            #[trigger] s[k],
            sep,
        ) by {
            if k < s.len() - 1 {
                assert(s[k] == t[k]);
            }
        }
    }
}

/// The window is full and equal to the pattern exactly when a match ends here.
proof fn lemma_window_match(s: Seq<char>, sep: char, pat: Seq<char>)
    requires
        pat.len() > 0,
    ensures
        (window_of(s, sep, pat.len()).len() == pat.len() && window_of(s, sep, pat.len()) == pat)
            <==> ends_with_match(s, sep, pat),
{
    lemma_run_start(s, sep);
    let m = pat.len() as int;
    let ss = run_start(s, sep);
    let l = s.len() as int;
    if l >= m && ss > l - m {
        assert(!is_boundary(s[ss], sep) ==> false);
        assert(!ends_with_match(s, sep, pat));
    }
}

/// Sliding-window matcher over a stream of characters, restarted at every boundary.
pub struct Matcher {
    pattern: Vec<char>,
    separator: char,
    window: Vec<char>,
    seen: Ghost<Seq<char>>,
}

impl Matcher {
    /// The folded pattern searched for.
    pub closed spec fn pattern(&self) -> Seq<char> {
        self.pattern@
    }

    /// The separator that, like a newline, restarts matching.
    pub closed spec fn separator(&self) -> char {
        self.separator
    }

    /// The characters given to the matcher so far.
    pub closed spec fn seen(&self) -> Seq<char> {
        self.seen@
    }

    /// A matcher with a pattern to search for, in a consistent state.
    pub open spec fn wf(&self) -> bool {
        &&& self.pattern().len() > 0
        &&& self.inv()
    }

    pub closed spec fn inv(&self) -> bool {
        &&& self.window@ == window_of(self.seen@, self.separator, self.pattern@.len())
    }

    /// A matcher for `pattern`, already folded, that has seen nothing.
    pub fn new(pattern: Vec<char>, separator: char) -> (r: Matcher)
        requires
            pattern@.len() > 0,
        ensures
            r.wf(),
            r.pattern() == pattern@,
            r.separator() == separator,
            r.seen() == Seq::<char>::empty(),
    {
        let r = Matcher { pattern, separator, window: Vec::new(), seen: Ghost(Seq::empty()) };
        assert(r.window@ =~= window_of(Seq::<char>::empty(), separator, r.pattern@.len()));
        r
    }

    /// Takes one more character and says whether a match ends at it.
    pub fn step(&mut self, c: char) -> (r: bool)
        requires
            old(self).wf(),
        ensures
            final(self).wf(),
            final(self).pattern() == old(self).pattern(),
            final(self).separator() == old(self).separator(),
            final(self).seen() == old(self).seen().push(c),
            r == ends_with_match(final(self).seen(), final(self).separator(), final(self).pattern()),
    {
        let ghost s = self.seen@;
        let ghost sep = self.separator;
        let ghost m = self.pattern@.len() as int;
        let ghost s2 = s.push(c);
        proof {
            lemma_run_start(s, sep);
            assert(s2.drop_last() =~= s);
            assert(s2.last() == c);
        }
        if c == '\n' || c == self.separator {
            self.window = Vec::new();
        }
        let f = fold_char(c);
        self.window.push(f);
        if self.window.len() > self.pattern.len() {
            self.window.remove(0);
        }
        self.seen = Ghost(s2);
        proof {
            let l = s.len() as int;
            let ss = run_start(s, sep);
            let from = if ss > l - m { ss } else { l - m };
            if is_boundary(c, sep) {
                assert(self.window@ =~= folded(s2.subrange(l, l + 1)));
            } else {
                assert(s2.subrange(from, l + 1) =~= s.subrange(from, l).push(c));
                assert(folded(s.subrange(from, l).push(c)) =~= folded(s.subrange(from, l)).push(f));
                if l + 1 - from > m {
                    assert(s2.subrange(from + 1, l + 1) =~= s2.subrange(from, l + 1).drop_first());
                    assert(self.window@ =~= folded(s2.subrange(from + 1, l + 1)));
                } else {
                    assert(self.window@ =~= folded(s2.subrange(from, l + 1)));
                }
            }
            assert(self.window@ == window_of(s2, sep, m as nat));
            lemma_window_match(s2, sep, self.pattern@);
        }
        self.window.len() == self.pattern.len() && same_chars(&self.window, &self.pattern)
    }
}

/// Whether two character vectors hold the same characters.
fn same_chars(a: &Vec<char>, b: &Vec<char>) -> (r: bool)
    ensures
        r == (a@ == b@),
{
    if a.len() != b.len() {
        return false;
    }
    let mut i: usize = 0;
    while i < a.len()
        invariant
            a@.len() == b@.len(),
            i <= a@.len(),
            forall|k: int| 0 <= k < i ==> a@[k] == b@[k],
        decreases a@.len() - i,
    {
        if a[i] != b[i] {
            assert(a@[i as int] != b@[i as int]);
            return false;
        }
        i = i + 1;
    }
    assert(a@ =~= b@);
    true
}

/// The search string folded to lowercase, as characters.
pub fn folded_pattern(search: &str) -> (r: Vec<char>)
    ensures
        r@ == lower_str(search@),
        r@.len() == 0 <==> search@.len() == 0,
{
    let lowered = fold_str(search);
    let s = lowered.as_str();
    let n = s.unicode_len();
    let mut r: Vec<char> = Vec::new();
    let mut i: usize = 0;
    while i < n
        invariant
            n == s@.len(),
            s@ == lower_str(search@),
            i <= n,
            r@ == s@.subrange(0, i as int),
        decreases n - i,
    {
        r.push(s.get_char(i));
        i = i + 1;
        assert(r@ =~= s@.subrange(0, i as int));
    }
    assert(r@ =~= s@);
    r
}

} // verus!
