//! Paths as the store sees them: text whose separators are all `/`.

use vstd::prelude::*;

verus! {

/// The separator that every stored path uses.
pub const SEPARATOR: char = '/';

/// The separator that normalization replaces.
pub const FOREIGN_SEPARATOR: char = '\\';

/// The text of `path` with each foreign separator replaced by `/`.
pub open spec fn normalized(path: Seq<char>) -> Seq<char> {
    path.map_values(|c: char| if c == FOREIGN_SEPARATOR { SEPARATOR } else { c })
}

/// Whether `path` is free of foreign separators.
pub open spec fn is_normal(path: Seq<char>) -> bool {
    forall|i: int| 0 <= i < path.len() ==> path[i] != FOREIGN_SEPARATOR
}

/// The four-letter JPEG extension, dot included.
pub open spec fn long_jpeg_extension() -> Seq<char> {
    seq!['.', 'j', 'p', 'e', 'g']
}

/// The three-letter JPEG extension, dot included.
pub open spec fn short_jpeg_extension() -> Seq<char> {
    seq!['.', 'j', 'p', 'g']
}

/// The text that a partial lookup searches for: `path` cut back to `.jp`
/// where it ends in either JPEG extension, so that `.jpg` and `.jpeg` find
/// each other; any other path as it is.
pub open spec fn relaxed(path: Seq<char>) -> Seq<char> {
    if long_jpeg_extension().is_suffix_of(path) {
        path.take(path.len() - 2)
    } else if short_jpeg_extension().is_suffix_of(path) {
        path.take(path.len() - 1)
    } else {
        path
    }
}

/// Whether `needle` stands in `hay` starting at position `at`.
pub open spec fn occurs_at(needle: Seq<char>, hay: Seq<char>, at: int) -> bool {
    &&& 0 <= at
    &&& at + needle.len() <= hay.len()
    &&& hay.subrange(at, at + needle.len()) == needle
}

/// Whether `needle` is a contiguous part of `hay`.
pub open spec fn occurs_in(needle: Seq<char>, hay: Seq<char>) -> bool {
    exists|at: int| occurs_at(needle, hay, at)
}

/// Normalizing produces a normal path of the same length, and leaves a normal
/// path unchanged.
pub proof fn lemma_normalized(path: Seq<char>)
    ensures
        is_normal(normalized(path)),
        normalized(path).len() == path.len(),
        is_normal(path) ==> normalized(path) == path,
        normalized(normalized(path)) == normalized(path),
{
    assert(is_normal(path) ==> normalized(path) =~= path);
    assert(normalized(normalized(path)) =~= normalized(path));
}

/// The relaxed form of a path is a prefix of it, so it occurs in the path and
/// is normal whenever the path is.
pub proof fn lemma_relaxed(path: Seq<char>)
    ensures
        relaxed(path).is_prefix_of(path),
        occurs_at(relaxed(path), path, 0),
        is_normal(path) ==> is_normal(relaxed(path)),
{
    let part = relaxed(path);
    assert(part.len() <= path.len());
    assert(path.subrange(0, part.len() as int) =~= part);
    assert(is_normal(path) ==> is_normal(part)) by {
        assert(forall|i: int| 0 <= i < part.len() ==> part[i] == path[i]);
    }
}

/// A part of a part is a part.
pub proof fn lemma_occurs_in_transitive(a: Seq<char>, b: Seq<char>, c: Seq<char>)
    requires
        occurs_in(a, b),
        occurs_in(b, c),
    ensures
        occurs_in(a, c),
{
    let i = choose|i: int| occurs_at(a, b, i);
    let j = choose|j: int| occurs_at(b, c, j);
    assert(c.subrange(j + i, j + i + a.len()) =~= c.subrange(j, j + b.len()).subrange(
        i,
        i + a.len(),
    ));
    assert(occurs_at(a, c, j + i));
}

/// `String::push` of the standard library: the string afterwards is the
/// string before with `ch` added at its end. Trusted, not proved.
pub assume_specification[ String::push ](s: &mut String, ch: char)
    ensures
        final(s)@ == old(s)@.push(ch),
;

/// A path in normal form.
pub struct NormalizedPath {
    chars: Vec<char>,
}

impl View for NormalizedPath {
    type V = Seq<char>;

    closed spec fn view(&self) -> Seq<char> {
        self.chars@
    }
}

impl NormalizedPath {
    /// Holds of every normalized path: it is free of foreign separators.
    #[verifier::type_invariant]
    pub open spec fn wf(&self) -> bool {
        is_normal(self@)
    }

    /// Normalizes `path`.
    pub fn new(path: &str) -> (r: Self)
        ensures
            r@ == normalized(path@),
            r.wf(),
    {
        let mut chars: Vec<char> = Vec::new();
        for c in it: path.chars()
            invariant
                it.seq() == path@,
                chars@ == normalized(path@.take(it.index() as int)),
        {
            chars.push(if c == FOREIGN_SEPARATOR { SEPARATOR } else { c });
        }
        NormalizedPath { chars }
    }

    /// The path as a string.
    pub fn to_string(&self) -> (s: String)
        ensures
            s@ == self@,
    {
        let n: usize = self.chars.len();
        let mut s = String::new();
        let mut i: usize = 0;
        while i < n
            invariant
                i <= n,
                n == self.chars@.len(),
                s@ == self.chars@.take(i as int),
            decreases n - i,
        {
            s.push(self.chars[i]);
            proof {
                assert(self.chars@.take(i + 1) =~= self.chars@.take(i as int).push(
                    self.chars@[i as int],
                ));
            }
            i += 1;
        }
        proof {
            assert(self.chars@.take(n as int) =~= self.chars@);
        }
        s
    }

    /// Whether the two paths have the same text.
    pub fn same(&self, other: &NormalizedPath) -> (r: bool)
        ensures
            r == (self@ == other@),
    {
        let n: usize = self.chars.len();
        if other.chars.len() != n {
            return false;
        }
        let mut i: usize = 0;
        while i < n
            invariant
                i <= n,
                n == self.chars@.len(),
                n == other.chars@.len(),
                forall|k: int| 0 <= k < i ==> self.chars@[k] == other.chars@[k],
            decreases n - i,
        {
            if self.chars[i] != other.chars[i] {
                return false;
            }
            i += 1;
        }
        proof {
            assert(self.chars@ =~= other.chars@);
        }
        true
    }

    /// Whether the path ends in `.jpeg`.
    fn has_long_jpeg_extension(&self) -> (r: bool)
        ensures
            r == long_jpeg_extension().is_suffix_of(self@),
    {
        let n: usize = self.chars.len();
        if n < 5 {
            return false;
        }
        let r = self.chars[n - 5] == '.' && self.chars[n - 4] == 'j' && self.chars[n - 3] == 'p'
            && self.chars[n - 2] == 'e' && self.chars[n - 1] == 'g';
        proof {
            let tail = self@.subrange(n - 5, n as int);
            assert(tail[0] == self@[n - 5]);
            assert(tail[1] == self@[n - 4]);
            assert(tail[2] == self@[n - 3]);
            assert(tail[3] == self@[n - 2]);
            assert(tail[4] == self@[n - 1]);
            assert(r ==> tail =~= long_jpeg_extension());
        }
        r
    }

    /// Whether the path ends in `.jpg`.
    fn has_short_jpeg_extension(&self) -> (r: bool)
        ensures
            r == short_jpeg_extension().is_suffix_of(self@),
    {
        let n: usize = self.chars.len();
        if n < 4 {
            return false;
        }
        let r = self.chars[n - 4] == '.' && self.chars[n - 3] == 'j' && self.chars[n - 2] == 'p'
            && self.chars[n - 1] == 'g';
        proof {
            let tail = self@.subrange(n - 4, n as int);
            assert(tail[0] == self@[n - 4]);
            assert(tail[1] == self@[n - 3]);
            assert(tail[2] == self@[n - 2]);
            assert(tail[3] == self@[n - 1]);
            assert(r ==> tail =~= short_jpeg_extension());
        }
        r
    }

    /// The text that a partial lookup for this path searches for.
    pub fn relaxed(&self) -> (r: NormalizedPath)
        ensures
            r@ == relaxed(self@),
            r.wf(),
    {
        proof {
            use_type_invariant(self);
            lemma_relaxed(self@);
        }
        let n: usize = self.chars.len();
        let keep: usize = if self.has_long_jpeg_extension() {
            n - 2
        } else if self.has_short_jpeg_extension() {
            n - 1
        } else {
            n
        };
        let mut chars: Vec<char> = Vec::new();
        let mut i: usize = 0;
        while i < keep
            invariant
                i <= keep <= n,
                n == self.chars@.len(),
                chars@.len() == i,
                forall|k: int| 0 <= k < i ==> chars@[k] == self.chars@[k],
            decreases keep - i,
        {
            chars.push(self.chars[i]);
            i += 1;
        }
        proof {
            assert(chars@ =~= self.chars@.take(keep as int));
        }
        NormalizedPath { chars }
    }

    /// Whether `needle` stands in this path at position `at`.
    fn holds_at(&self, needle: &NormalizedPath, at: usize) -> (r: bool)
        requires
            at + needle@.len() <= self@.len(),
        ensures
            r == occurs_at(needle@, self@, at as int),
    {
        let n: usize = self.chars.len();
        let m: usize = needle.chars.len();
        let ghost window = self.chars@.subrange(at as int, at + m);
        let mut k: usize = 0;
        while k < m
            invariant
                k <= m,
                m == needle.chars@.len(),
                n == self.chars@.len(),
                at + m <= n,
                window == self.chars@.subrange(at as int, at + m),
                forall|j: int| 0 <= j < k ==> window[j] == needle.chars@[j],
            decreases m - k,
        {
            if self.chars[at + k] != needle.chars[k] {
                proof {
                    assert(window[k as int] != needle.chars@[k as int]);
                }
                return false;
            }
            proof {
                assert(window[k as int] == self.chars@[at + k]);
            }
            k += 1;
        }
        proof {
            assert(window =~= needle.chars@);
        }
        true
    }

    /// Whether `needle` is a contiguous part of this path. The empty path is
    /// part of every path.
    pub fn contains(&self, needle: &NormalizedPath) -> (r: bool)
        ensures
            r == occurs_in(needle@, self@),
    {
        let n: usize = self.chars.len();
        let m: usize = needle.chars.len();
        if m > n {
            return false;
        }
        let last: usize = n - m;
        let mut at: usize = 0;
        loop
            invariant
                at <= last,
                last == n - m,
                n == self.chars@.len(),
                m == needle.chars@.len(),
                forall|k: int| 0 <= k < at ==> !occurs_at(needle@, self@, k),
            decreases last - at,
        {
            if self.holds_at(needle, at) {
                return true;
            }
            if at == last {
                return false;
            }
            at += 1;
        }
    }
}

} // verus!
