//! Top-down geohash coverings: starting from the whole world, a cell whose
//! box meets the geometry is split into its 32 children until the covering
//! level is reached. The geometric test is the caller's; this module keeps
//! the pending cells and the cells found, and shows what a run collects.
use crate::geohash::{base32_alphabet, children, is_base32_char, lemma_base32_table};
use vstd::arithmetic::power::{lemma_pow_positive, pow};
use vstd::prelude::*;

verus! {

/// The geohash alphabet digits: every character of a text is one.
pub open spec fn base32_text(s: Seq<char>) -> bool {
    forall|i: int| 0 <= i < s.len() ==> is_base32_char(#[trigger] s[i])
}

/// The 32 children of a geohash text, in alphabet order.
pub open spec fn child_texts(gh: Seq<char>) -> Seq<Seq<char>> {
    Seq::new(32, |i: int| gh.push(base32_alphabet()[i]))
}

/// One step of a top-down geohash covering on its stack of pending cells
/// and its list of found cells: the last pending cell is taken; if it
/// relates to the geometry, it is replaced by its children while shorter
/// than the level, and otherwise joins the found cells.
pub open spec fn covering_next(
    pending: Seq<Seq<char>>,
    found: Seq<Seq<char>>,
    level: nat,
    related: bool,
) -> (Seq<Seq<char>>, Seq<Seq<char>>) {
    let gh = pending.last();
    let rest = pending.drop_last();
    if !related {
        (rest, found)
    } else if gh.len() < level {
        (rest + child_texts(gh), found)
    } else {
        (rest, found.push(gh))
    }
}

/// How much work a pending cell can still cause: 33 to the number of digits
/// it lacks (each step trades one cell for at most 32 one digit longer).
pub open spec fn cell_weight(gh: Seq<char>, level: nat) -> nat {
    pow(33, (level - gh.len()) as nat) as nat
}

/// The work left in a stack of pending cells.
pub open spec fn pending_weight(pending: Seq<Seq<char>>, level: nat) -> nat
    decreases pending.len(),
{
    if pending.len() == 0 {
        0
    } else {
        pending_weight(pending.drop_last(), level) + cell_weight(pending.last(), level)
    }
}

/// Pending cells are base-32 texts no longer than the level; found cells
/// are base-32 texts of exactly the level's length.
pub open spec fn covering_wf(pending: Seq<Seq<char>>, found: Seq<Seq<char>>, level: nat) -> bool {
    &&& forall|i: int|
        0 <= i < pending.len() ==> (#[trigger] pending[i]).len() <= level && base32_text(pending[i])
    &&& forall|i: int|
        0 <= i < found.len() ==> (#[trigger] found[i]).len() == level && base32_text(found[i])
}

/// A top-down geohash covering in progress. The caller examines the cell
/// `current` names, decides whether its box meets the geometry, and reports
/// it to `advance`; when no cell is pending, `cells` is the covering.
pub struct GeohashCovering {
    pending: Vec<String>,
    found: Vec<String>,
    level: usize,
}

impl GeohashCovering {
    /// The cells still to examine, the next one last.
    pub closed spec fn pending(&self) -> Seq<Seq<char>> {
        self.pending.deep_view()
    }

    /// The cells of the covering found so far.
    pub closed spec fn found(&self) -> Seq<Seq<char>> {
        self.found.deep_view()
    }

    /// The geohash length of the covering cells.
    pub closed spec fn level(&self) -> nat {
        self.level as nat
    }

    /// The covering's invariant.
    pub open spec fn wf(&self) -> bool {
        covering_wf(self.pending(), self.found(), self.level())
    }

    /// Starts a covering at the given level from the whole world, the empty
    /// geohash.
    pub fn new(level: usize) -> (r: GeohashCovering)
        ensures
            r.wf(),
            r.pending() == seq![Seq::<char>::empty()],
            r.found() == Seq::<Seq<char>>::empty(),
            r.level() == level,
    {
        let mut pending: Vec<String> = Vec::new();
        pending.push(String::new());
        let found: Vec<String> = Vec::new();
        let r = GeohashCovering { pending, found, level };
        assert(r.pending() =~= seq![Seq::<char>::empty()]);
        assert(r.found() =~= Seq::<Seq<char>>::empty());
        r
    }

    /// The cell to examine next, if any is pending.
    pub fn current(&self) -> (r: Option<&String>)
        ensures
            self.pending().len() == 0 ==> r is None,
            self.pending().len() > 0 ==> (r matches Some(gh) && gh@ == self.pending().last()),
    {
        if self.pending.len() == 0 {
            None
        } else {
            Some(&self.pending[self.pending.len() - 1])
        }
    }

    /// Takes the next cell, given whether its box meets the geometry.
    pub fn advance(&mut self, related: bool)
        requires
            old(self).wf(),
            old(self).pending().len() > 0,
        ensures
            final(self).wf(),
            final(self).level() == old(self).level(),
            (final(self).pending(), final(self).found()) == covering_next(
                old(self).pending(),
                old(self).found(),
                old(self).level(),
                related,
            ),
            pending_weight(final(self).pending(), final(self).level()) < pending_weight(
                old(self).pending(),
                old(self).level(),
            ),
    {
        let ghost level = self.level as nat;
        let ghost before = self.pending.deep_view();
        let ghost found0 = self.found.deep_view();
        let gh = match self.pending.pop() {
            Some(g) => g,
            None => {
                proof {
                    assert(false);
                }
                return;
            },
        };
        let ghost rest = self.pending.deep_view();
        proof {
            assert(rest =~= before.drop_last());
            assert(gh@ == before.last());
            assert(gh@ == before[before.len() - 1]);
        }
        if !related {
            proof {
                lemma_covering_step(before, found0, level, related);
            }
            return;
        }
        if gh.as_str().unicode_len() < self.level {
            let kids = children(&gh);
            assert(kids@.len() == kids.deep_view().len());
            let mut i: usize = 0;
            while i < kids.len()
                invariant
                    i <= kids@.len(),
                    kids@.len() == 32,
                    kids.deep_view() == child_texts(gh@),
                    self.pending.deep_view() == rest + child_texts(gh@).take(i as int),
                    self.found.deep_view() == found0,
                    self.level == level,
                decreases kids@.len() - i,
            {
                let ghost q0 = self.pending.deep_view();
                self.pending.push(kids[i].clone());
                proof {
                    assert(kids.deep_view()[i as int] == kids@[i as int]@);
                    assert(self.pending.deep_view() =~= q0.push(child_texts(gh@)[i as int]));
                    assert(child_texts(gh@).take(i + 1) =~= child_texts(gh@).take(i as int).push(
                        child_texts(gh@)[i as int],
                    ));
                }
                i = i + 1;
            }
            assert(child_texts(gh@).take(32) =~= child_texts(gh@));
        } else {
            self.found.push(gh);
            assert(self.found.deep_view() =~= found0.push(before.last()));
        }
        proof {
            lemma_covering_step(before, found0, level, related);
        }
    }

    /// The cells of the covering, in the order they were found.
    pub fn cells(self) -> (r: Vec<String>)
        ensures
            r.deep_view() == self.found(),
    {
        self.found
    }
}

/// Law: a step of a geohash covering keeps its invariant and lowers the work
/// left, so the covering ends; the found cells only grow.
pub proof fn lemma_covering_step(
    pending: Seq<Seq<char>>,
    found: Seq<Seq<char>>,
    level: nat,
    related: bool,
)
    requires
        covering_wf(pending, found, level),
        pending.len() > 0,
    ensures
        ({
            let (p2, f2) = covering_next(pending, found, level, related);
            &&& covering_wf(p2, f2, level)
            &&& pending_weight(p2, level) < pending_weight(pending, level)
            &&& f2.take(found.len() as int) == found
            &&& f2.len() <= found.len() + 1
        }),
{
    let gh = pending.last();
    let rest = pending.drop_last();
    assert(gh == pending[pending.len() - 1]);
    let (p2, f2) = covering_next(pending, found, level, related);
    lemma_pow_positive(33, (level - gh.len()) as nat);
    assert(pending.drop_last() =~= rest);
    assert(pending_weight(pending, level) == pending_weight(rest, level) + cell_weight(gh, level));
    assert forall|j: int| 0 <= j < rest.len() implies (#[trigger] rest[j]).len() <= level && base32_text(
        rest[j],
    ) by {
        assert(rest[j] == pending[j]);
    }
    if related && gh.len() < level {
        lemma_base32_table();
        let k = (level - gh.len()) as nat;
        lemma_children_weight(rest, gh, level, 32);
        assert(child_texts(gh).take(32) =~= child_texts(gh));
        assert(pow(33, k) == 33 * pow(33, (k - 1) as nat)) by {
            reveal(pow);
        }
        lemma_pow_positive(33, (k - 1) as nat);
        lemma_pow_positive(33, k);
        assert(pending.drop_last() =~= rest);
        assert forall|j: int| 0 <= j < p2.len() implies (#[trigger] p2[j]).len() <= level && base32_text(
            p2[j],
        ) by {
            if j >= rest.len() {
                let c = child_texts(gh)[j - rest.len()];
                assert(p2[j] == c);
                assert forall|m: int| 0 <= m < c.len() implies is_base32_char(#[trigger] c[m]) by {
                    if m < gh.len() {
                        assert(c[m] == gh[m]);
                    } else {
                        assert(c[m] == base32_alphabet()[j - rest.len()]);
                    }
                }
            } else {
                assert(p2[j] == pending[j]);
            }
        }
    } else if related {
        assert(f2.take(found.len() as int) =~= found);
        assert forall|j: int| 0 <= j < f2.len() implies (#[trigger] f2[j]).len() == level && base32_text(
            f2[j],
        ) by {
            if j < found.len() {
                assert(f2[j] == found[j]);
            }
        }
    }
    assert(found.take(found.len() as int) =~= found);
}

/// The work left after the first `n` children of a cell are pushed on `rest`.
proof fn lemma_children_weight(rest: Seq<Seq<char>>, gh: Seq<char>, level: nat, n: nat)
    requires
        gh.len() < level,
        n <= 32,
    ensures
        pending_weight(rest + child_texts(gh).take(n as int), level) == pending_weight(rest, level)
            + n * pow(33, (level - gh.len() - 1) as nat),
    decreases n,
{
    let w = pow(33, (level - gh.len() - 1) as nat);
    lemma_pow_positive(33, (level - gh.len() - 1) as nat);
    if n == 0 {
        assert(rest + child_texts(gh).take(0) =~= rest);
    } else {
        lemma_children_weight(rest, gh, level, (n - 1) as nat);
        let s = rest + child_texts(gh).take(n as int);
        assert(s.drop_last() =~= rest + child_texts(gh).take(n - 1));
        assert(s.last() == gh.push(base32_alphabet()[n - 1]));
        assert(cell_weight(s.last(), level) == w);
        assert(n * w == (n - 1) * w + w) by (nonlinear_arith);
    }
}


/// The cells a run collects below `gh` when `rel` tells which cells meet the
/// geometry: nothing if `gh` does not meet it; `gh` itself at the covering
/// level; else what its children collect, the last child first.
pub open spec fn subtree_cover(gh: Seq<char>, level: nat, rel: spec_fn(Seq<char>) -> bool) -> Seq<Seq<char>>
    decreases level - gh.len(), 33nat,
{
    if !rel(gh) {
        Seq::empty()
    } else if gh.len() >= level {
        seq![gh]
    } else {
        children_cover(gh, level, rel, 32)
    }
}

/// What the first `n` children of `gh` collect, child `n - 1` first.
pub open spec fn children_cover(
    gh: Seq<char>,
    level: nat,
    rel: spec_fn(Seq<char>) -> bool,
    n: nat,
) -> Seq<Seq<char>>
    decreases level - gh.len(), n,
{
    if n == 0 || gh.len() >= level || n > 32 {
        Seq::empty()
    } else {
        subtree_cover(gh.push(base32_alphabet()[n - 1]), level, rel) + children_cover(
            gh,
            level,
            rel,
            (n - 1) as nat,
        )
    }
}

/// What a stack of pending cells collects, the last cell first.
pub open spec fn pending_cover(
    pending: Seq<Seq<char>>,
    level: nat,
    rel: spec_fn(Seq<char>) -> bool,
) -> Seq<Seq<char>>
    decreases pending.len(),
{
    if pending.len() == 0 {
        Seq::empty()
    } else {
        subtree_cover(pending.last(), level, rel) + pending_cover(pending.drop_last(), level, rel)
    }
}

/// The cells of a covering at `level` for the relation `rel`: the texts of
/// `level` base-32 digits every prefix of which (the empty one and the
/// whole text included) meets the geometry.
pub open spec fn is_covering_cell(x: Seq<char>, level: nat, rel: spec_fn(Seq<char>) -> bool) -> bool {
    &&& x.len() == level
    &&& base32_text(x)
    &&& forall|k: int| 0 <= k <= level ==> #[trigger] rel(x.take(k))
}

/// Pushing the first `n` children of `gh` on a stack puts what they collect
/// in front of what the stack collected.
proof fn lemma_pending_children(
    rest: Seq<Seq<char>>,
    gh: Seq<char>,
    level: nat,
    rel: spec_fn(Seq<char>) -> bool,
    n: nat,
)
    requires
        gh.len() < level,
        n <= 32,
    ensures
        pending_cover(rest + child_texts(gh).take(n as int), level, rel) == children_cover(
            gh,
            level,
            rel,
            n,
        ) + pending_cover(rest, level, rel),
    decreases n,
{
    if n == 0 {
        assert(rest + child_texts(gh).take(0) =~= rest);
        assert(Seq::<Seq<char>>::empty() + pending_cover(rest, level, rel) =~= pending_cover(
            rest,
            level,
            rel,
        ));
    } else {
        lemma_pending_children(rest, gh, level, rel, (n - 1) as nat);
        let s = rest + child_texts(gh).take(n as int);
        assert(s.drop_last() =~= rest + child_texts(gh).take(n - 1));
        assert(s.last() == gh.push(base32_alphabet()[n - 1]));
        assert(pending_cover(s, level, rel) =~= children_cover(gh, level, rel, n) + pending_cover(
            rest,
            level,
            rel,
        ));
    }
}

/// Law: a step given the right answer for its cell keeps what the found
/// cells and the pending stack collect together. A run from the empty
/// geohash that answers each cell by `rel` therefore ends with exactly
/// `subtree_cover` of the empty geohash.
pub proof fn lemma_covering_collects(
    pending: Seq<Seq<char>>,
    found: Seq<Seq<char>>,
    level: nat,
    rel: spec_fn(Seq<char>) -> bool,
)
    requires
        covering_wf(pending, found, level),
        pending.len() > 0,
    ensures
        ({
            let (p2, f2) = covering_next(pending, found, level, rel(pending.last()));
            f2 + pending_cover(p2, level, rel) == found + pending_cover(pending, level, rel)
        }),
{
    let gh = pending.last();
    let rest = pending.drop_last();
    let (p2, f2) = covering_next(pending, found, level, rel(gh));
    if !rel(gh) {
        assert(subtree_cover(gh, level, rel) =~= Seq::<Seq<char>>::empty());
        assert(pending_cover(pending, level, rel) =~= pending_cover(rest, level, rel));
    } else if gh.len() < level {
        lemma_pending_children(rest, gh, level, rel, 32);
        assert(child_texts(gh).take(32) =~= child_texts(gh));
        assert(subtree_cover(gh, level, rel) == children_cover(gh, level, rel, 32));
        assert(f2 + pending_cover(p2, level, rel) =~= found + pending_cover(pending, level, rel));
    } else {
        assert(subtree_cover(gh, level, rel) == seq![gh]);
        assert(f2 + pending_cover(p2, level, rel) =~= found + pending_cover(pending, level, rel));
    }
}

/// A new covering's stack collects the empty geohash's subtree, and an
/// empty stack collects nothing.
pub proof fn lemma_covering_ends(level: nat, rel: spec_fn(Seq<char>) -> bool)
    ensures
        pending_cover(seq![Seq::<char>::empty()], level, rel) == subtree_cover(
            Seq::<char>::empty(),
            level,
            rel,
        ),
        pending_cover(Seq::<Seq<char>>::empty(), level, rel) == Seq::<Seq<char>>::empty(),
{
    let p = seq![Seq::<char>::empty()];
    assert(p.drop_last() =~= Seq::<Seq<char>>::empty());
    assert(p.last() == Seq::<char>::empty());
    assert(pending_cover(p.drop_last(), level, rel) == Seq::<Seq<char>>::empty());
    assert(pending_cover(p, level, rel) == subtree_cover(p.last(), level, rel) + pending_cover(
        p.drop_last(),
        level,
        rel,
    ));
    assert(subtree_cover(Seq::<char>::empty(), level, rel) + Seq::<Seq<char>>::empty()
        =~= subtree_cover(Seq::<char>::empty(), level, rel));
}

/// Every base-32 digit stands in the alphabet.
proof fn lemma_alphabet_index(c: char)
    requires
        is_base32_char(c),
    ensures
        exists|i: int| 0 <= i < 32 && #[trigger] base32_alphabet()[i] == c,
{
    let a = base32_alphabet();
    if c == '0' {
        assert(a[0] == c);
    } else if c == '1' {
        assert(a[1] == c);
    } else if c == '2' {
        assert(a[2] == c);
    } else if c == '3' {
        assert(a[3] == c);
    } else if c == '4' {
        assert(a[4] == c);
    } else if c == '5' {
        assert(a[5] == c);
    } else if c == '6' {
        assert(a[6] == c);
    } else if c == '7' {
        assert(a[7] == c);
    } else if c == '8' {
        assert(a[8] == c);
    } else if c == '9' {
        assert(a[9] == c);
    } else if c == 'b' {
        assert(a[10] == c);
    } else if c == 'c' {
        assert(a[11] == c);
    } else if c == 'd' {
        assert(a[12] == c);
    } else if c == 'e' {
        assert(a[13] == c);
    } else if c == 'f' {
        assert(a[14] == c);
    } else if c == 'g' {
        assert(a[15] == c);
    } else if c == 'h' {
        assert(a[16] == c);
    } else if c == 'j' {
        assert(a[17] == c);
    } else if c == 'k' {
        assert(a[18] == c);
    } else if c == 'm' {
        assert(a[19] == c);
    } else if c == 'n' {
        assert(a[20] == c);
    } else if c == 'p' {
        assert(a[21] == c);
    } else if c == 'q' {
        assert(a[22] == c);
    } else if c == 'r' {
        assert(a[23] == c);
    } else if c == 's' {
        assert(a[24] == c);
    } else if c == 't' {
        assert(a[25] == c);
    } else if c == 'u' {
        assert(a[26] == c);
    } else if c == 'v' {
        assert(a[27] == c);
    } else if c == 'w' {
        assert(a[28] == c);
    } else if c == 'x' {
        assert(a[29] == c);
    } else if c == 'y' {
        assert(a[30] == c);
    } else if c == 'z' {
        assert(a[31] == c);
    }
}

/// What `x` must be to be collected below `gh`: a text of the covering
/// level that extends `gh` with base-32 digits, every prefix of which from
/// `gh` on meets the geometry.
pub open spec fn collected_below(gh: Seq<char>, level: nat, rel: spec_fn(Seq<char>) -> bool, x: Seq<char>) -> bool {
    &&& x.len() == level
    &&& x.take(gh.len() as int) == gh
    &&& forall|j: int| gh.len() <= j < level ==> is_base32_char(#[trigger] x[j])
    &&& forall|k: int| gh.len() <= k <= level ==> #[trigger] rel(x.take(k))
}

/// The first `n` children of `gh` collect what one of them collects.
proof fn lemma_children_members(
    gh: Seq<char>,
    level: nat,
    rel: spec_fn(Seq<char>) -> bool,
    n: nat,
    x: Seq<char>,
)
    requires
        gh.len() < level,
        n <= 32,
    ensures
        children_cover(gh, level, rel, n).contains(x) <==> exists|i: int|
            0 <= i < n && #[trigger] subtree_cover(gh.push(base32_alphabet()[i]), level, rel).contains(x),
    decreases n,
{
    if n > 0 {
        lemma_children_members(gh, level, rel, (n - 1) as nat, x);
        let last = subtree_cover(gh.push(base32_alphabet()[n - 1]), level, rel);
        vstd::seq_lib::lemma_seq_concat_contains_all_elements(
            last,
            children_cover(gh, level, rel, (n - 1) as nat),
            x,
        );
        if last.contains(x) {
            assert(subtree_cover(gh.push(base32_alphabet()[n - 1]), level, rel).contains(x));
        }
    }
}

/// Membership in what a cell collects, for a cell no longer than the level.
proof fn lemma_subtree_members(gh: Seq<char>, level: nat, rel: spec_fn(Seq<char>) -> bool, x: Seq<char>)
    requires
        gh.len() <= level,
    ensures
        subtree_cover(gh, level, rel).contains(x) <==> collected_below(gh, level, rel, x),
    decreases level - gh.len(),
{
    let len = gh.len() as int;
    if !rel(gh) {
        if collected_below(gh, level, rel, x) {
            assert(rel(x.take(len)));
        }
    } else if gh.len() == level {
        if x == gh {
            assert(x.take(len) =~= gh);
            assert(subtree_cover(gh, level, rel)[0] == x);
        }
        if collected_below(gh, level, rel, x) {
            assert(x =~= x.take(len));
        }
    } else {
        lemma_base32_table();
        lemma_children_members(gh, level, rel, 32, x);
        if subtree_cover(gh, level, rel).contains(x) {
            let i = choose|i: int|
                0 <= i < 32 && #[trigger] subtree_cover(gh.push(base32_alphabet()[i]), level, rel).contains(x);
            let child = gh.push(base32_alphabet()[i]);
            lemma_subtree_members(child, level, rel, x);
            assert(x.take(len) =~= x.take(len + 1).take(len));
            assert(x.take(len) =~= gh);
            assert(x[len] == x.take(len + 1)[len]);
            assert(x[len] == base32_alphabet()[i]);
            assert forall|j: int| len <= j < level implies is_base32_char(#[trigger] x[j]) by {
                if j > len {
                    assert(child.len() <= j);
                }
            }
            assert forall|k: int| len <= k <= level implies #[trigger] rel(x.take(k)) by {
                if k == len {
                    assert(x.take(k) == gh);
                }
            }
        }
        if collected_below(gh, level, rel, x) {
            lemma_alphabet_index(x[len]);
            let i = choose|i: int| 0 <= i < 32 && #[trigger] base32_alphabet()[i] == x[len];
            let child = gh.push(base32_alphabet()[i]);
            assert(x.take(len + 1) =~= child);
            lemma_subtree_members(child, level, rel, x);
            assert(subtree_cover(gh.push(base32_alphabet()[i]), level, rel).contains(x));
        }
    }
}

/// Law: a covering at `level` for the relation `rel` collects exactly the
/// texts of `level` base-32 digits whose every prefix meets the geometry.
pub proof fn lemma_covering_cells(level: nat, rel: spec_fn(Seq<char>) -> bool, x: Seq<char>)
    ensures
        subtree_cover(Seq::<char>::empty(), level, rel).contains(x) <==> is_covering_cell(x, level, rel),
{
    lemma_subtree_members(Seq::<char>::empty(), level, rel, x);
    if is_covering_cell(x, level, rel) {
        assert(x.take(0) =~= Seq::<char>::empty());
    }
}

/// No digit stands twice in the alphabet.
proof fn lemma_alphabet_distinct()
    ensures
        forall|i: int, j: int|
            0 <= i < 32 && 0 <= j < 32 && i != j ==> #[trigger] base32_alphabet()[i]
                != #[trigger] base32_alphabet()[j],
{
}

/// Two sequences without repeats and without a common element join into
/// one without repeats.
proof fn lemma_concat_no_duplicates(a: Seq<Seq<char>>, b: Seq<Seq<char>>)
    requires
        a.no_duplicates(),
        b.no_duplicates(),
        forall|x: Seq<char>| a.contains(x) ==> !b.contains(x),
    ensures
        (a + b).no_duplicates(),
{
    let c = a + b;
    assert forall|i: int, j: int| 0 <= i < c.len() && 0 <= j < c.len() && i != j implies c[i]
        != c[j] by {
        if i < a.len() && j >= a.len() {
            assert(a.contains(c[i]));
            assert(b[j - a.len()] == c[j]);
            assert(b.contains(c[j]));
        } else if j < a.len() && i >= a.len() {
            assert(a.contains(c[j]));
            assert(b[i - a.len()] == c[i]);
            assert(b.contains(c[i]));
        } else if i >= a.len() {
            assert(c[i] == b[i - a.len()] && c[j] == b[j - a.len()]);
        }
    }
}

/// What the first `n` children of a cell collect has no repeats.
proof fn lemma_children_distinct(gh: Seq<char>, level: nat, rel: spec_fn(Seq<char>) -> bool, n: nat)
    requires
        gh.len() < level,
        n <= 32,
    ensures
        children_cover(gh, level, rel, n).no_duplicates(),
    decreases level - gh.len(), n,
{
    if n > 0 {
        let len = gh.len() as int;
        let child = gh.push(base32_alphabet()[n - 1]);
        let last = subtree_cover(child, level, rel);
        let rest = children_cover(gh, level, rel, (n - 1) as nat);
        lemma_subtree_distinct(child, level, rel);
        lemma_children_distinct(gh, level, rel, (n - 1) as nat);
        assert forall|x: Seq<char>| last.contains(x) implies !rest.contains(x) by {
            lemma_subtree_members(child, level, rel, x);
            assert(x[len] == x.take(len + 1)[len]);
            lemma_children_members(gh, level, rel, (n - 1) as nat, x);
            if rest.contains(x) {
                let i = choose|i: int|
                    0 <= i < n - 1 && #[trigger] subtree_cover(gh.push(base32_alphabet()[i]), level, rel).contains(x);
                let other = gh.push(base32_alphabet()[i]);
                lemma_subtree_members(other, level, rel, x);
                assert(x[len] == x.take(len + 1)[len]);
                lemma_alphabet_distinct();
                assert(base32_alphabet()[i] != base32_alphabet()[n - 1]);
            }
        }
        lemma_concat_no_duplicates(last, rest);
    }
}

/// What a cell collects has no repeats.
proof fn lemma_subtree_distinct(gh: Seq<char>, level: nat, rel: spec_fn(Seq<char>) -> bool)
    requires
        gh.len() <= level,
    ensures
        subtree_cover(gh, level, rel).no_duplicates(),
    decreases level - gh.len(), 33nat,
{
    if rel(gh) && gh.len() < level {
        lemma_children_distinct(gh, level, rel, 32);
    }
}

/// Law: a covering names no cell twice.
pub proof fn lemma_covering_distinct(level: nat, rel: spec_fn(Seq<char>) -> bool)
    ensures
        subtree_cover(Seq::<char>::empty(), level, rel).no_duplicates(),
{
    lemma_subtree_distinct(Seq::<char>::empty(), level, rel);
}

} // verus!
