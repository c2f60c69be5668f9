//! Matching text against a sequence of segments, each of which must cover
//! the next piece of the text.
use vstd::prelude::*;

verus! {

/// What a segment accepts.
pub enum Checker {
    /// Any piece, the empty one included.
    Anything,
    /// Exactly these characters.
    Literal(Vec<char>),
}

/// One segment of a pattern, optionally named.
pub struct Segment {
    pub name: Option<String>,
    pub checker: Checker,
}

/// A pattern: segments that must cover the text in order, with no gaps.
pub struct Matcha {
    pub fns: Vec<Segment>,
}

/// Whether `checker` accepts `piece`.
pub open spec fn piece_fits(checker: Checker, piece: Seq<char>) -> bool {
    match checker {
        Checker::Anything => true,
        Checker::Literal(w) => piece == w@,
    }
}

/// The checkers of a list of segments.
pub open spec fn checkers_of(segs: Seq<Segment>) -> Seq<Checker> {
    segs.map_values(|s: Segment| s.checker)
}

/// Segments `j..` cover `s[p..]` exactly.
pub open spec fn fits_from(segs: Seq<Checker>, s: Seq<char>, j: int, p: int) -> bool
    decreases segs.len() - j,
{
    if j >= segs.len() {
        p == s.len()
    } else {
        exists|q: int| p <= q <= s.len() && #[trigger] piece_fits(segs[j], s.subrange(p, q)) && fits_from(segs, s, j + 1, q)
    }
}

/// `bounds` splits `s` into one piece per segment, each accepted by its segment.
pub open spec fn is_split(segs: Seq<Checker>, s: Seq<char>, bounds: Seq<usize>) -> bool {
    &&& bounds.len() == segs.len() + 1
    &&& bounds[0] == 0
    &&& bounds[segs.len() as int] == s.len()
    &&& forall|j: int| 0 <= j < segs.len() ==> bounds[j] <= #[trigger] bounds[j + 1]
    &&& forall|j: int| 0 <= j < segs.len() ==> piece_fits(segs[j], #[trigger] s.subrange(bounds[j] as int, bounds[j + 1] as int))
}

/// Whether `checker` accepts `s[p..q]`.
fn fits_piece(checker: &Checker, s: &[char], p: usize, q: usize) -> (r: bool)
    requires
        p <= q <= s@.len(),
    ensures
        r == piece_fits(*checker, s@.subrange(p as int, q as int)),
{
    match checker {
        Checker::Anything => true,
        Checker::Literal(w) => {
            if q - p != w.len() {
                assert(s@.subrange(p as int, q as int).len() != w@.len());
                return false;
            }
            let mut i: usize = 0;
            while i < w.len()
                invariant
                    p <= q <= s@.len(),
                    q - p == w@.len(),
                    i <= w@.len(),
                    forall|k: int| 0 <= k < i ==> s@[p + k] == w@[k],
                    piece_fits(*checker, s@.subrange(p as int, q as int)) == (s@.subrange(p as int, q as int) == w@),
                decreases w@.len() - i,
            {
                if s[p + i] != w[i] {
                    assert(s@.subrange(p as int, q as int)[i as int] != w@[i as int]);
                    return false;
                }
                i += 1;
            }
            assert(s@.subrange(p as int, q as int) =~= w@);
            true
        },
    }
}

impl Matcha {
    pub open spec fn checkers(&self) -> Seq<Checker> {
        checkers_of(self.fns@)
    }

    pub fn new() -> (r: Self)
        ensures
            r.fns@.len() == 0,
    {
        Matcha { fns: Vec::new() }
    }

    /// Appends a segment.
    pub fn add(&mut self, checker: Checker, name: Option<String>)
        ensures
            final(self).fns@.len() == old(self).fns@.len() + 1,
            final(self).checkers() == old(self).checkers().push(checker),
            final(self).fns@.last().name == name,
    {
        self.fns.push(Segment { name, checker });
        assert(self.checkers() =~= old(self).checkers().push(checker));
    }

    /// Row `j` of the table: for each `p`, whether segments `j..` cover `s[p..]`.
    fn row(&self, s: &[char], j: usize, next: &Vec<bool>) -> (r: Vec<bool>)
        requires
            s@.len() < usize::MAX,
            j < self.fns@.len(),
            next@.len() == s@.len() + 1,
            forall|q: int| 0 <= q <= s@.len() ==> next@[q] == fits_from(self.checkers(), s@, j + 1, q),
        ensures
            r@.len() == s@.len() + 1,
            forall|p: int| 0 <= p <= s@.len() ==> r@[p] == fits_from(self.checkers(), s@, j as int, p),
    {
        let ghost segs = self.checkers();
        let mut out: Vec<bool> = Vec::with_capacity(s.len() + 1);
        let mut p: usize = 0;
        while p <= s.len()
            invariant
                s@.len() < usize::MAX,
                segs == self.checkers(),
                j < segs.len(),
                next@.len() == s@.len() + 1,
                forall|q: int| 0 <= q <= s@.len() ==> next@[q] == fits_from(segs, s@, j + 1, q),
                p <= s@.len() + 1,
                out@.len() == p,
                forall|k: int| 0 <= k < p ==> out@[k] == fits_from(segs, s@, j as int, k),
            decreases s@.len() + 1 - p,
        {
            let mut found = false;
            let mut q: usize = p;
            while q <= s.len() && !found
                invariant
                    s@.len() < usize::MAX,
                    segs == self.checkers(),
                    j < segs.len(),
                    next@.len() == s@.len() + 1,
                    forall|x: int| 0 <= x <= s@.len() ==> next@[x] == fits_from(segs, s@, j + 1, x),
                    p <= s@.len(),
                    p <= q <= s@.len() + 1,
                    found ==> fits_from(segs, s@, j as int, p as int),
                    !found ==> forall|x: int| p <= x < q ==> !(#[trigger] piece_fits(segs[j as int], s@.subrange(p as int, x)) && fits_from(segs, s@, j + 1, x)),
                decreases s@.len() + 1 - q, (if found { 0int } else { 1int }),
            {
                assert(segs[j as int] == self.fns@[j as int].checker);
                if fits_piece(&self.fns[j].checker, s, p, q) && next[q] {
                    found = true;
                } else {
                    q += 1;
                }
            }
            out.push(found);
            p += 1;
        }
        out
    }

    /// For each `j` from the last segment down to the first (stored at
    /// `r[len - j]`), whether segments `j..` cover `s[p..]`, for each `p`.
    fn table(&self, s: &[char]) -> (r: Vec<Vec<bool>>)
        requires
            s@.len() < usize::MAX,
            self.fns@.len() < usize::MAX,
        ensures
            r@.len() == self.fns@.len() + 1,
            forall|i: int| 0 <= i <= self.fns@.len() ==> #[trigger] r@[i]@.len() == s@.len() + 1,
            forall|i: int, p: int| 0 <= i <= self.fns@.len() && 0 <= p <= s@.len() ==> #[trigger] r@[i]@[p]
                == fits_from(self.checkers(), s@, self.fns@.len() - i, p),
    {
        let ghost segs = self.checkers();
        let k = self.fns.len();
        let mut last: Vec<bool> = Vec::with_capacity(s.len() + 1);
        let mut p: usize = 0;
        while p <= s.len()
            invariant
                s@.len() < usize::MAX,
                segs == self.checkers(),
                k == segs.len(),
                p <= s@.len() + 1,
                last@.len() == p,
                forall|x: int| 0 <= x < p ==> last@[x] == fits_from(segs, s@, k as int, x),
            decreases s@.len() + 1 - p,
        {
            last.push(p == s.len());
            p += 1;
        }
        let mut rows: Vec<Vec<bool>> = Vec::with_capacity(k + 1);
        rows.push(last);
        let mut i: usize = 0;
        while i < k
            invariant
                s@.len() < usize::MAX,
                segs == self.checkers(),
                k == segs.len(),
                i <= k,
                rows@.len() == i + 1,
                forall|a: int| 0 <= a <= i ==> #[trigger] rows@[a]@.len() == s@.len() + 1,
                forall|a: int, x: int| 0 <= a <= i && 0 <= x <= s@.len() ==> #[trigger] rows@[a]@[x]
                    == fits_from(segs, s@, k - a, x),
            decreases k - i,
        {
            let j = k - 1 - i;
            let next = self.row(s, j, &rows[i]);
            rows.push(next);
            i += 1;
        }
        rows
    }

    /// Whether the segments cover `s` in order, with no gaps.
    pub fn is_match(&self, s: &[char]) -> (r: bool)
        requires
            s@.len() < usize::MAX,
            self.fns@.len() < usize::MAX,
        ensures
            r == fits_from(self.checkers(), s@, 0, 0),
    {
        let t = self.table(s);
        let k = self.fns.len();
        assert(t@[k as int]@.len() == s@.len() + 1);
        t[k][0]
    }

    /// Where the pieces of a match of `s` start and end: one bound before
    /// each segment's piece, and the end of `s`; `None` if there is no match.
    pub fn try_match(&self, s: &[char]) -> (r: Option<Vec<usize>>)
        requires
            s@.len() < usize::MAX,
            self.fns@.len() < usize::MAX,
        ensures
            r is None <==> !fits_from(self.checkers(), s@, 0, 0),
            r matches Some(b) ==> is_split(self.checkers(), s@, b@),
    {
        let ghost segs = self.checkers();
        let t = self.table(s);
        let k = self.fns.len();
        assert(t@[k as int]@.len() == s@.len() + 1);
        if !t[k][0] {
            return None;
        }
        let mut bounds: Vec<usize> = Vec::with_capacity(k + 1);
        bounds.push(0);
        let mut p: usize = 0;
        let mut j: usize = 0;
        while j < k
            invariant
                segs == self.checkers(),
                k == segs.len(),
                t@.len() == k + 1,
                forall|i: int| 0 <= i <= k ==> #[trigger] t@[i]@.len() == s@.len() + 1,
                forall|i: int, x: int| 0 <= i <= k && 0 <= x <= s@.len() ==> #[trigger] t@[i]@[x]
                    == fits_from(segs, s@, k - i, x),
                j <= k,
                p <= s@.len(),
                fits_from(segs, s@, j as int, p as int),
                bounds@.len() == j + 1,
                bounds@[0] == 0,
                bounds@[j as int] == p,
                forall|a: int| 0 <= a < j ==> bounds@[a] <= #[trigger] bounds@[a + 1],
                forall|a: int| 0 <= a < j ==> piece_fits(segs[a], #[trigger] s@.subrange(bounds@[a] as int, bounds@[a + 1] as int)),
            decreases k - j,
        {
            let ghost w = choose|q: int| p <= q <= s@.len() && #[trigger] piece_fits(segs[j as int], s@.subrange(p as int, q)) && fits_from(segs, s@, j + 1, q);
            assert(t@[(k - j - 1) as int]@.len() == s@.len() + 1);
            let mut q: usize = p;
            let mut found = false;
            while !found
                invariant
                    segs == self.checkers(),
                    j < k,
                    k == segs.len(),
                    segs[j as int] == self.fns@[j as int].checker,
                    t@.len() == k + 1,
                    t@[(k - j - 1) as int]@.len() == s@.len() + 1,
                    forall|x: int| 0 <= x <= s@.len() ==> #[trigger] t@[(k - j - 1) as int]@[x] == fits_from(segs, s@, j + 1, x),
                    p <= q <= w <= s@.len(),
                    piece_fits(segs[j as int], s@.subrange(p as int, w)),
                    fits_from(segs, s@, j + 1, w),
                    found ==> piece_fits(segs[j as int], s@.subrange(p as int, q as int)) && fits_from(segs, s@, j + 1, q as int),
                decreases w - q, (if found { 0int } else { 1int }),
            {
                if fits_piece(&self.fns[j].checker, s, p, q) && t[k - j - 1][q] {
                    found = true;
                } else {
                    q += 1;
                }
            }
            let ghost before = bounds@;
            bounds.push(q);
            proof {
                assert(bounds@[j + 1] == q);
                assert forall|a: int| 0 <= a < j + 1 implies piece_fits(segs[a], #[trigger] s@.subrange(bounds@[a] as int, bounds@[a + 1] as int)) by {
                    if a < j {
                        assert(bounds@[a] == before[a] && bounds@[a + 1] == before[a + 1]);
                    }
                }
                assert forall|a: int| 0 <= a < j + 1 implies bounds@[a] <= #[trigger] bounds@[a + 1] by {
                    if a < j {
                        assert(bounds@[a] == before[a] && bounds@[a + 1] == before[a + 1]);
                    }
                }
            }
            p = q;
            j += 1;
        }
        Some(bounds)
    }
}

} // verus!
